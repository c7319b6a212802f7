//! QUIC: the server name in the Initial packets that open a connection.

use crate::bytes;
use crate::sniff;
use crate::sniff::quic_crypto;
use crate::sniff::quic_crypto::{aes128_encrypt, aes128_gcm_open, hkdf_expand, hkdf_extract};
use crate::sniff::tls_common;
use crate::sniff::tls_common::{be_u24, parse_sni_from_client_hello_body, TlsSniffError};
use crate::sniff::udp::{
    Outcome, UdpSniffError, UdpSniffOutcome, UdpSniffProtocol, UdpSnifferEngine,
    UdpSnifferSessionEngine,
};
use vstd::prelude::*;
use vstd::slice::slice_subrange;
use vstd::string::*;
use vstd::utf8::*;

verus! {

/// No more of a datagram than this is looked at.
pub const QUIC_SNI_INPUT_CAP: usize = 16384;

/// No more of the handshake than this is put together.
pub const QUIC_CRYPTO_REASSEMBLY_CAP: usize = 32768;

pub const QUIC_VERSION_V1: u32 = 0x0000_0001;

pub const QUIC_VERSION_V2: u32 = 0x6b33_43cf;

pub const QUIC_VERSION_DRAFT29: u32 = 0xff00_001d;

// ---------------------------------------------------------------------------
// Keys
// ---------------------------------------------------------------------------

/// The salt from which the keys of Initial packets are derived, for the versions
/// that are understood.
pub open spec fn initial_salt(version: u32) -> Option<Seq<u8>> {
    if version == QUIC_VERSION_V1 {
        Some(
            seq![
                0x38u8, 0x76u8, 0x2cu8, 0xf7u8, 0xf5u8, 0x59u8, 0x34u8, 0xb3u8, 0x4du8, 0x17u8,
                0x9au8, 0xe6u8, 0xa4u8, 0xc8u8, 0x0cu8, 0xadu8, 0xccu8, 0xbbu8, 0x7fu8, 0x0au8,
            ],
        )
    } else if version == QUIC_VERSION_V2 {
        Some(
            seq![
                0x0du8, 0xedu8, 0xe3u8, 0xdeu8, 0xf7u8, 0x00u8, 0xa6u8, 0xdbu8, 0x81u8, 0x93u8,
                0x81u8, 0xbeu8, 0x6eu8, 0x26u8, 0x9du8, 0xcbu8, 0xf9u8, 0xbdu8, 0x2eu8, 0xd9u8,
            ],
        )
    } else if version == QUIC_VERSION_DRAFT29 {
        Some(
            seq![
                0xafu8, 0xbfu8, 0xecu8, 0x28u8, 0x99u8, 0x93u8, 0xd2u8, 0x4cu8, 0x9eu8, 0x97u8,
                0x86u8, 0xf1u8, 0x9cu8, 0x61u8, 0x11u8, 0xe0u8, 0x43u8, 0x90u8, 0xa8u8, 0x99u8,
            ],
        )
    } else {
        None
    }
}

/// The salt of a version that is understood.
pub fn quic_initial_salt(version: u32) -> (r: Option<[u8; 20]>)
    ensures
        match r {
            Some(salt) => initial_salt(version) == Some(salt@),
            None => initial_salt(version) is None,
        },
{
    if version == QUIC_VERSION_V1 {
        let salt: [u8; 20] = [
            0x38, 0x76, 0x2c, 0xf7, 0xf5, 0x59, 0x34, 0xb3, 0x4d, 0x17, 0x9a, 0xe6, 0xa4, 0xc8,
            0x0c, 0xad, 0xcc, 0xbb, 0x7f, 0x0a,
        ];
        assert(salt@ =~= initial_salt(version)->0);
        Some(salt)
    } else if version == QUIC_VERSION_V2 {
        let salt: [u8; 20] = [
            0x0d, 0xed, 0xe3, 0xde, 0xf7, 0x00, 0xa6, 0xdb, 0x81, 0x93, 0x81, 0xbe, 0x6e, 0x26,
            0x9d, 0xcb, 0xf9, 0xbd, 0x2e, 0xd9,
        ];
        assert(salt@ =~= initial_salt(version)->0);
        Some(salt)
    } else if version == QUIC_VERSION_DRAFT29 {
        let salt: [u8; 20] = [
            0xaf, 0xbf, 0xec, 0x28, 0x99, 0x93, 0xd2, 0x4c, 0x9e, 0x97, 0x86, 0xf1, 0x9c, 0x61,
            0x11, 0xe0, 0x43, 0x90, 0xa8, 0x99,
        ];
        assert(salt@ =~= initial_salt(version)->0);
        Some(salt)
    } else {
        None
    }
}

/// The info of TLS 1.3 HKDF-Expand-Label: the length of the output in two
/// bytes, the label after `tls13 ` and the context, each behind a length byte.
pub open spec fn label_info(label: Seq<char>, context: Seq<u8>, len: nat) -> Seq<u8> {
    let full = encode_utf8("tls13 "@) + encode_utf8(label);
    bytes::be_bytes(len, 2) + seq![full.len() as u8] + full + seq![context.len() as u8] + context
}

/// TLS 1.3 HKDF-Expand-Label.
pub open spec fn expand_label(
    secret: Seq<u8>,
    label: Seq<char>,
    context: Seq<u8>,
    len: nat,
) -> Seq<u8> {
    quic_crypto::hkdf_okm(secret, label_info(label, context, len), len)
}

/// Whether HKDF-Expand-Label has a result: label and context have lengths that
/// fit in a byte, the secret is long enough and the output short enough.
pub open spec fn can_expand_label(
    secret: Seq<u8>,
    label: Seq<char>,
    context: Seq<u8>,
    len: nat,
) -> bool {
    &&& (encode_utf8("tls13 "@) + encode_utf8(label)).len() <= 255
    &&& context.len() <= 255
    &&& secret.len() >= 32
    &&& len <= 8160
}

/// `len` bytes of key material for a label.
pub fn hkdf_expand_label(secret: &[u8], label: &str, context: &[u8], len: u16) -> (r: Result<
    Vec<u8>,
    UdpSniffError,
>)
    ensures
        match r {
            Ok(okm) => can_expand_label(secret@, label@, context@, len as nat) && okm@
                == expand_label(secret@, label@, context@, len as nat) && okm@.len() == len,
            Err(e) => e == UdpSniffError::ParseError && !can_expand_label(
                secret@,
                label@,
                context@,
                len as nat,
            ),
        },
{
    let mut full: Vec<u8> = Vec::new();
    bytes::append_all(&mut full, "tls13 ".as_bytes());
    bytes::append_all(&mut full, label.as_bytes());
    assert(full@ =~= encode_utf8("tls13 "@) + encode_utf8(label@));
    if full.len() > 255 || context.len() > 255 {
        return Err(UdpSniffError::ParseError);
    }
    let mut info: Vec<u8> = Vec::new();
    bytes::append_be(&mut info, len as u128, 2);
    info.push(full.len() as u8);
    bytes::append_all(&mut info, full.as_slice());
    info.push(context.len() as u8);
    bytes::append_all(&mut info, context);
    assert(info@ =~= label_info(label@, context@, len as nat));
    match hkdf_expand(secret, info.as_slice(), len) {
        Some(okm) => Ok(okm),
        None => Err(UdpSniffError::ParseError),
    }
}

/// The keys that protect the Initial packets of a client.
#[derive(Debug, Clone, Copy)]
pub struct QuicInitialKeys {
    pub hp_key: [u8; 16],
    pub key: [u8; 16],
    pub iv: [u8; 12],
}

/// The view of [`QuicInitialKeys`].
pub struct InitialKeys {
    pub hp_key: Seq<u8>,
    pub key: Seq<u8>,
    pub iv: Seq<u8>,
}

impl View for QuicInitialKeys {
    type V = InitialKeys;

    open spec fn view(&self) -> InitialKeys {
        InitialKeys { hp_key: self.hp_key@, key: self.key@, iv: self.iv@ }
    }
}

/// The secret of the client's Initial packets.
pub open spec fn client_initial_secret(salt: Seq<u8>, dcid: Seq<u8>) -> Seq<u8> {
    expand_label(quic_crypto::hkdf_prk(salt, dcid), "client in"@, Seq::empty(), 32)
}

/// The keys of the client's Initial packets to a connection id.
pub open spec fn initial_keys(salt: Seq<u8>, dcid: Seq<u8>) -> InitialKeys {
    let secret = client_initial_secret(salt, dcid);
    InitialKeys {
        hp_key: expand_label(secret, "quic hp"@, Seq::empty(), 16),
        key: expand_label(secret, "quic key"@, Seq::empty(), 16),
        iv: expand_label(secret, "quic iv"@, Seq::empty(), 12),
    }
}

fn array_16(v: &[u8]) -> (r: [u8; 16])
    requires
        v@.len() == 16,
    ensures
        r@ == v@,
{
    let mut r: [u8; 16] = [0; 16];
    let mut i: usize = 0;
    while i < 16
        invariant
            i <= 16,
            v@.len() == 16,
            forall|j: int| 0 <= j < i ==> r@[j] == v@[j],
        decreases 16 - i,
    {
        r[i] = v[i];
        i += 1;
    }
    assert(r@ =~= v@);
    r
}

fn array_12(v: &[u8]) -> (r: [u8; 12])
    requires
        v@.len() == 12,
    ensures
        r@ == v@,
{
    let mut r: [u8; 12] = [0; 12];
    let mut i: usize = 0;
    while i < 12
        invariant
            i <= 12,
            v@.len() == 12,
            forall|j: int| 0 <= j < i ==> r@[j] == v@[j],
        decreases 12 - i,
    {
        r[i] = v[i];
        i += 1;
    }
    assert(r@ =~= v@);
    r
}

proof fn lemma_labels_fit()
    ensures
        (encode_utf8("tls13 "@) + encode_utf8("client in"@)).len() <= 255,
        (encode_utf8("tls13 "@) + encode_utf8("quic hp"@)).len() <= 255,
        (encode_utf8("tls13 "@) + encode_utf8("quic key"@)).len() <= 255,
        (encode_utf8("tls13 "@) + encode_utf8("quic iv"@)).len() <= 255,
{
    reveal_strlit("tls13 ");
    reveal_strlit("client in");
    reveal_strlit("quic hp");
    reveal_strlit("quic key");
    reveal_strlit("quic iv");
    is_ascii_chars_encode_utf8("tls13 "@);
    is_ascii_chars_encode_utf8("client in"@);
    is_ascii_chars_encode_utf8("quic hp"@);
    is_ascii_chars_encode_utf8("quic key"@);
    is_ascii_chars_encode_utf8("quic iv"@);
}

/// The keys of the client's Initial packets, for a version that is understood.
pub fn derive_quic_initial_keys(version: u32, dcid: &[u8]) -> (r: Result<
    QuicInitialKeys,
    UdpSniffError,
>)
    ensures
        match r {
            Ok(keys) => initial_salt(version) matches Some(salt) && keys@ == initial_keys(
                salt,
                dcid@,
            ),
            Err(e) => e == UdpSniffError::ProtocolNotMatched && initial_salt(version) is None,
        },
{
    proof {
        lemma_labels_fit();
    }
    let salt = match quic_initial_salt(version) {
        Some(salt) => salt,
        None => {
            return Err(UdpSniffError::ProtocolNotMatched);
        },
    };
    let none: Vec<u8> = Vec::new();
    assert(none@ =~= Seq::empty());
    let prk = hkdf_extract(salt.as_slice(), dcid);
    let secret = hkdf_expand_label(prk.as_slice(), "client in", none.as_slice(), 32)?;
    let hp_key = hkdf_expand_label(secret.as_slice(), "quic hp", none.as_slice(), 16)?;
    let key = hkdf_expand_label(secret.as_slice(), "quic key", none.as_slice(), 16)?;
    let iv = hkdf_expand_label(secret.as_slice(), "quic iv", none.as_slice(), 12)?;
    Ok(
        QuicInitialKeys {
            hp_key: array_16(hp_key.as_slice()),
            key: array_16(key.as_slice()),
            iv: array_12(iv.as_slice()),
        },
    )
}

// ---------------------------------------------------------------------------
// Numbers
// ---------------------------------------------------------------------------

/// Four bytes at `off` as a number.
pub fn quic_read_u32(buf: &[u8], off: usize) -> (r: Result<u32, UdpSniffError>)
    requires
        off + 4 <= usize::MAX,
    ensures
        match r {
            Ok(v) => off + 4 <= buf@.len() && v == bytes::be_value(
                buf@.subrange(off as int, off + 4),
            ),
            Err(e) => off + 4 > buf@.len() && e == UdpSniffError::InsufficientPrefix,
        },
{
    if off + 4 > buf.len() {
        return Err(UdpSniffError::InsufficientPrefix);
    }
    proof {
        bytes::lemma_be_value_bound(buf@.subrange(off as int, off + 4));
        bytes::lemma_pow256_values();
    }
    Ok(bytes::read_be(buf, off, 4) as u32)
}

/// How many bytes a variable-length number takes, by its first byte.
pub open spec fn varint_len(first: u8) -> int {
    if first < 64 {
        1
    } else if first < 128 {
        2
    } else if first < 192 {
        4
    } else {
        8
    }
}

/// How many bytes a variable-length number takes, by the two highest bits of its
/// first byte.
pub fn quic_varint_len(first: u8) -> (r: usize)
    ensures
        r == varint_len(first),
{
    match first / 64 {
        0 => 1,
        1 => 2,
        2 => 4,
        _ => 8,
    }
}

/// The bytes that hold the value of a variable-length number of `n` bytes: the
/// two highest bits, which give the length, are cleared.
pub open spec fn varint_digits(s: Seq<u8>, off: int, n: int) -> Seq<u8> {
    s.subrange(off, off + n).update(0, (s[off] % 64) as u8)
}

/// The variable-length number at `off`: its value and where it ends.
pub open spec fn varint_at(s: Seq<u8>, off: int) -> Option<(int, int)> {
    let n = varint_len(s[off]);
    if off < 0 || off >= s.len() || off + n > s.len() {
        None
    } else {
        Some((bytes::be_value(varint_digits(s, off, n)) as int, off + n))
    }
}

/// Reads the variable-length number at `off` and moves past it.
pub fn quic_read_varint(buf: &[u8], off: &mut usize) -> (r: Result<u64, UdpSniffError>)
    ensures
        match r {
            Ok(v) => varint_at(buf@, *old(off) as int) == Some((v as int, *final(off) as int)),
            Err(e) => {
                &&& varint_at(buf@, *old(off) as int) is None
                &&& e == UdpSniffError::InsufficientPrefix
                &&& *final(off) == *old(off)
            },
        },
        r matches Ok(v) ==> v < 0x4000_0000_0000_0000,
{
    let start: usize = *off;
    if start >= buf.len() {
        return Err(UdpSniffError::InsufficientPrefix);
    }
    let first = buf[start];
    let len = quic_varint_len(first);
    if buf.len() - start < len {
        return Err(UdpSniffError::InsufficientPrefix);
    }
    let ghost digits = varint_digits(buf@, start as int, len as int);
    let mut value: u64 = (first % 64) as u64;
    let mut i: usize = 1;
    proof {
        assert(digits.take(1).drop_last() =~= Seq::empty());
        assert(bytes::be_value(Seq::<u8>::empty()) == 0);
        assert(bytes::be_value(digits.take(1)) == first % 64);
        bytes::lemma_pow256_values();
    }
    while i < len
        invariant
            1 <= i <= len <= 8,
            start + len <= buf.len(),
            digits == varint_digits(buf@, start as int, len as int),
            value == bytes::be_value(digits.take(i as int)),
            value < 64 * bytes::pow256((i - 1) as nat),
        decreases len - i,
    {
        proof {
            bytes::lemma_pow256_values();
            bytes::lemma_pow256_monotonic((i - 1) as nat, 6);
            bytes::lemma_pow256_monotonic(i as nat, 7);
            assert(bytes::pow256(7) * 256 == bytes::pow256(8));
            assert(bytes::pow256(6) * 256 == bytes::pow256(7));
            assert(digits.take(i + 1).drop_last() =~= digits.take(i as int));
        }
        value = value * 256 + buf[start + i] as u64;
        i += 1;
    }
    proof {
        assert(digits.take(len as int) =~= digits);
        bytes::lemma_pow256_values();
        bytes::lemma_pow256_monotonic((len - 1) as nat, 7);
        assert(bytes::pow256(7) * 256 == bytes::pow256(8));
    }
    *off = start + len;
    Ok(value)
}

// ---------------------------------------------------------------------------
// Putting the handshake together
// ---------------------------------------------------------------------------

/// What has arrived of a handshake: the bytes by their offsets, and the
/// connection id of the last packet.
pub struct CryptoStream {
    pub received: Map<int, u8>,
    pub last_dcid: Option<Seq<u8>>,
}

/// `m` with `data` at `offset`, over what was there.
pub open spec fn placed(m: Map<int, u8>, offset: int, data: Seq<u8>) -> Map<int, u8> {
    Map::new(
        |i: int| m.dom().contains(i) || offset <= i < offset + data.len(),
        |i: int|
            if offset <= i < offset + data.len() {
                data[i - offset]
            } else {
                m[i]
            },
    )
}

/// The first offset at or after `from` that has not arrived.
pub open spec fn first_gap(m: Map<int, u8>, from: int) -> int
    decreases QUIC_CRYPTO_REASSEMBLY_CAP - from,
{
    if from < QUIC_CRYPTO_REASSEMBLY_CAP && m.dom().contains(from) {
        first_gap(m, from + 1)
    } else {
        from
    }
}

/// The bytes from offset 0 up to the first gap.
pub open spec fn contiguous_of(m: Map<int, u8>) -> Seq<u8> {
    Seq::new(first_gap(m, 0) as nat, |i: int| m[i])
}

impl CryptoStream {
    /// Nothing has arrived.
    pub open spec fn empty() -> CryptoStream {
        CryptoStream { received: Map::empty(), last_dcid: None }
    }

    /// After `data` arrived at `offset`.
    pub open spec fn with(self, offset: int, data: Seq<u8>) -> CryptoStream {
        CryptoStream {
            received: placed(self.received, offset, data),
            last_dcid: self.last_dcid,
        }
    }

    /// After a packet to `dcid`: what arrived under another connection id is
    /// dropped.
    pub open spec fn adopting(self, dcid: Seq<u8>) -> CryptoStream {
        if self.last_dcid matches Some(last) && last != dcid {
            CryptoStream { received: Map::empty(), last_dcid: Some(dcid) }
        } else {
            CryptoStream { received: self.received, last_dcid: Some(dcid) }
        }
    }
}

proof fn lemma_first_gap(m: Map<int, u8>, from: int)
    requires
        0 <= from <= QUIC_CRYPTO_REASSEMBLY_CAP,
    ensures
        from <= first_gap(m, from) <= QUIC_CRYPTO_REASSEMBLY_CAP,
        forall|i: int| from <= i < first_gap(m, from) ==> m.dom().contains(i),
        first_gap(m, from) < QUIC_CRYPTO_REASSEMBLY_CAP ==> !m.dom().contains(first_gap(m, from)),
    decreases QUIC_CRYPTO_REASSEMBLY_CAP - from,
{
    if from < QUIC_CRYPTO_REASSEMBLY_CAP && m.dom().contains(from) {
        lemma_first_gap(m, from + 1);
    }
}

proof fn lemma_gap_is(m: Map<int, u8>, from: int, gap: int)
    requires
        0 <= from <= gap <= QUIC_CRYPTO_REASSEMBLY_CAP,
        forall|i: int| from <= i < gap ==> m.dom().contains(i),
        gap < QUIC_CRYPTO_REASSEMBLY_CAP ==> !m.dom().contains(gap),
    ensures
        first_gap(m, from) == gap,
    decreases gap - from,
{
    if from < gap {
        lemma_gap_is(m, from + 1, gap);
    }
}

/// The handshake bytes of a connection, put together from the pieces that
/// packets carry in any order.
pub struct QuicCryptoReassembly {
    buf: Vec<u8>,
    present: Vec<bool>,
    contiguous_len: usize,
    last_dcid: Option<Vec<u8>>,
}

impl View for QuicCryptoReassembly {
    type V = CryptoStream;

    closed spec fn view(&self) -> CryptoStream {
        CryptoStream {
            received: Map::new(
                |i: int| 0 <= i < self.present@.len() && self.present@[i],
                |i: int| self.buf@[i],
            ),
            last_dcid: quic_crypto::opt_bytes(self.last_dcid),
        }
    }
}

impl QuicCryptoReassembly {
    /// Buffer and marks agree, stay below the cap, and the length that is known
    /// to be complete ends at the first gap.
    pub closed spec fn wf(&self) -> bool {
        &&& self.buf@.len() == self.present@.len() <= QUIC_CRYPTO_REASSEMBLY_CAP
        &&& self.contiguous_len <= self.present@.len()
        &&& forall|i: int| 0 <= i < self.contiguous_len ==> self.present@[i]
        &&& self.contiguous_len < self.present@.len() ==> !self.present@[self.contiguous_len as int]
    }

    pub fn new() -> (r: Self)
        ensures
            r.wf(),
            r@ == CryptoStream::empty(),
    {
        let r = QuicCryptoReassembly {
            buf: Vec::new(),
            present: Vec::new(),
            contiguous_len: 0,
            last_dcid: None,
        };
        assert(r@.received =~= Map::empty());
        r
    }

    /// Puts a piece in its place. Nothing changes when it would end beyond the
    /// cap.
    pub fn write(&mut self, offset: usize, data: &[u8]) -> (r: Result<(), UdpSniffError>)
        requires
            old(self).wf(),
        ensures
            final(self).wf(),
            match r {
                Ok(()) => offset + data@.len() <= QUIC_CRYPTO_REASSEMBLY_CAP && final(self)@
                    == old(self)@.with(offset as int, data@),
                Err(e) => {
                    &&& offset + data@.len() > QUIC_CRYPTO_REASSEMBLY_CAP
                    &&& e == UdpSniffError::TooLarge
                    &&& final(self)@ == old(self)@
                },
            },
    {
        if data.len() > QUIC_CRYPTO_REASSEMBLY_CAP || offset > QUIC_CRYPTO_REASSEMBLY_CAP
            - data.len() {
            return Err(UdpSniffError::TooLarge);
        }
        let end: usize = offset + data.len();
        let ghost before = *self;
        if self.buf.len() < end {
            self.buf.resize(end, 0);
            self.present.resize(end, false);
        }
        let ghost grown = *self;
        assert(forall|j: int|
            0 <= j < before.present@.len() ==> #[trigger] grown.present@[j] == before.present@[j]);
        let mut i: usize = 0;
        while i < data.len()
            invariant
                i <= data.len(),
                offset + data.len() == end,
                end <= self.buf@.len() == self.present@.len() == grown.present@.len(),
                self.contiguous_len == before.contiguous_len,
                self.last_dcid == before.last_dcid,
                forall|j: int|
                    0 <= j < self.present@.len() ==> #[trigger] self.present@[j] == (
                    grown.present@[j] || offset <= j < offset + i),
                forall|j: int|
                    0 <= j < self.buf@.len() ==> #[trigger] self.buf@[j] == (if offset <= j
                        < offset + i {
                        data@[j - offset]
                    } else {
                        grown.buf@[j]
                    }),
                grown.buf@.len() == grown.present@.len(),
            decreases data.len() - i,
        {
            self.buf.set(offset + i, data[i]);
            self.present.set(offset + i, true);
            i += 1;
        }
        while self.contiguous_len < self.present.len() && self.present[self.contiguous_len]
            invariant
                self.contiguous_len <= self.present@.len(),
                forall|j: int| 0 <= j < self.contiguous_len ==> #[trigger] self.present@[j],
                self.present@.len() == grown.present@.len(),
                self.buf@.len() == self.present@.len(),
                self.last_dcid == before.last_dcid,
                forall|j: int|
                    0 <= j < self.present@.len() ==> #[trigger] self.present@[j] == (
                    grown.present@[j] || offset <= j < offset + data.len()),
                forall|j: int|
                    0 <= j < self.buf@.len() ==> #[trigger] self.buf@[j] == (if offset <= j
                        < offset + data.len() {
                        data@[j - offset]
                    } else {
                        grown.buf@[j]
                    }),
            decreases self.present@.len() - self.contiguous_len,
        {
            self.contiguous_len = self.contiguous_len + 1;
        }
        assert(self@.received =~= placed(before@.received, offset as int, data@));
        Ok(())
    }

    /// Forgets everything.
    pub fn reset(&mut self)
        ensures
            final(self).wf(),
            final(self)@ == CryptoStream::empty(),
    {
        self.buf.clear();
        self.present.clear();
        self.contiguous_len = 0;
        self.last_dcid = None;
        assert(self@.received =~= Map::empty());
    }

    /// The bytes from the start up to the first gap.
    pub fn contiguous(&self) -> (r: &[u8])
        requires
            self.wf(),
        ensures
            r@ == contiguous_of(self@.received),
    {
        proof {
            lemma_gap_is(self@.received, 0, self.contiguous_len as int);
        }
        let r = slice_subrange(self.buf.as_slice(), 0, self.contiguous_len);
        assert(r@ =~= contiguous_of(self@.received));
        r
    }

    /// Notes the connection id of a packet, and drops what arrived under another
    /// one.
    pub fn adopt_dcid(&mut self, dcid: &[u8])
        requires
            old(self).wf(),
        ensures
            final(self).wf(),
            final(self)@ == old(self)@.adopting(dcid@),
    {
        let changed = match &self.last_dcid {
            Some(last) => !bytes::bytes_eq(last.as_slice(), dcid),
            None => false,
        };
        let ghost before = self@;
        if changed {
            self.reset();
        }
        let ghost kept = self@.received;
        let mut id: Vec<u8> = Vec::new();
        bytes::append_all(&mut id, dcid);
        assert(id@ =~= dcid@);
        self.last_dcid = Some(id);
        assert(self@.received =~= kept);
    }
}

/// The order in which two pieces that do not overlap arrive makes no difference.
pub proof fn pieces_commute(s: CryptoStream, o1: int, d1: Seq<u8>, o2: int, d2: Seq<u8>)
    requires
        o1 + d1.len() <= o2 || o2 + d2.len() <= o1,
    ensures
        s.with(o1, d1).with(o2, d2) == s.with(o2, d2).with(o1, d1),
{
    assert(placed(placed(s.received, o1, d1), o2, d2) =~= placed(
        placed(s.received, o2, d2),
        o1,
        d1,
    ));
}

/// A piece that arrives again changes nothing.
pub proof fn piece_is_idempotent(s: CryptoStream, o: int, d: Seq<u8>)
    ensures
        s.with(o, d).with(o, d) == s.with(o, d),
{
    assert(placed(placed(s.received, o, d), o, d) =~= placed(s.received, o, d));
}

/// A message that was cut in two and arrived in either order is read back whole.
pub proof fn two_pieces_make_the_message(msg: Seq<u8>, cut: int)
    requires
        0 <= cut <= msg.len() <= QUIC_CRYPTO_REASSEMBLY_CAP,
    ensures
        contiguous_of(
            CryptoStream::empty().with(0, msg.take(cut)).with(cut, msg.skip(cut)).received,
        ) == msg,
        contiguous_of(
            CryptoStream::empty().with(cut, msg.skip(cut)).with(0, msg.take(cut)).received,
        ) == msg,
{
    pieces_commute(CryptoStream::empty(), 0, msg.take(cut), cut, msg.skip(cut));
    let m = CryptoStream::empty().with(0, msg.take(cut)).with(cut, msg.skip(cut)).received;
    lemma_gap_is(m, 0, msg.len() as int);
    assert(contiguous_of(m) =~= msg);
}

/// New pieces never shorten what is complete, if they agree with it.
pub proof fn complete_part_only_grows(s: CryptoStream, o: int, d: Seq<u8>)
    requires
        0 <= o,
        forall|i: int|
            o <= i < o + d.len() && s.received.dom().contains(i) ==> s.received[i] == d[i - o],
    ensures
        contiguous_of(s.received).is_prefix_of(contiguous_of(s.with(o, d).received)),
{
    let before = s.received;
    let after = s.with(o, d).received;
    lemma_first_gap(before, 0);
    lemma_first_gap(after, 0);
    if first_gap(after, 0) < first_gap(before, 0) {
        assert(before.dom().contains(first_gap(after, 0)));
        assert(after.dom().contains(first_gap(after, 0)));
    }
    assert(contiguous_of(before) =~= contiguous_of(after).take(first_gap(before, 0)));
}

// ---------------------------------------------------------------------------
// Taking the protection off a packet
// ---------------------------------------------------------------------------

/// The nonce of a packet: the IV with the packet number, in eight bytes, over
/// its end.
pub open spec fn nonce_of(iv: Seq<u8>, packet_number: nat) -> Seq<u8> {
    let pn = bytes::be_bytes(packet_number, 8);
    Seq::new(
        12,
        |i: int|
            if i < 4 {
                iv[i]
            } else {
                iv[i] ^ pn[i - 4]
            },
    )
}

/// The nonce of a packet.
pub fn quic_build_nonce(iv: &[u8; 12], packet_number: u64) -> (r: [u8; 12])
    ensures
        r@ == nonce_of(iv@, packet_number as nat),
{
    let mut pn: Vec<u8> = Vec::new();
    bytes::append_be(&mut pn, packet_number as u128, 8);
    proof {
        bytes::lemma_be_bytes_len(packet_number as nat, 8);
        assert(pn@ =~= bytes::be_bytes(packet_number as nat, 8));
    }
    let mut nonce: [u8; 12] = *iv;
    let mut i: usize = 0;
    while i < 8
        invariant
            i <= 8,
            pn@ == bytes::be_bytes(packet_number as nat, 8),
            pn@.len() == 8,
            forall|j: int| 0 <= j < 12 && !(4 <= j < 4 + i) ==> nonce@[j] == iv@[j],
            forall|j: int| 4 <= j < 4 + i ==> nonce@[j] == iv@[j] ^ pn@[j - 4],
        decreases 8 - i,
    {
        nonce[4 + i] = nonce[4 + i] ^ pn[i];
        i += 1;
    }
    assert(nonce@ =~= nonce_of(iv@, packet_number as nat));
    nonce
}

/// A packet header without its protection, and where the sealed payload starts.
pub struct PlainHeader {
    pub header: Vec<u8>,
    pub packet_number: u64,
    pub payload_at: usize,
}

/// The first byte of a header, its protection taken off.
pub open spec fn plain_first(packet: Seq<u8>, start: int, mask: Seq<u8>) -> u8 {
    packet[start] ^ (mask[0] & 0x0f)
}

/// How many bytes the packet number takes.
pub open spec fn packet_number_len(packet: Seq<u8>, start: int, mask: Seq<u8>) -> int {
    (plain_first(packet, start, mask) & 0x03) + 1
}

/// The bytes of the packet number, their protection taken off.
pub open spec fn plain_packet_number(
    packet: Seq<u8>,
    start: int,
    pn_offset: int,
    mask: Seq<u8>,
) -> Seq<u8> {
    Seq::new(
        packet_number_len(packet, start, mask) as nat,
        |i: int| packet[pn_offset + i] ^ mask[1 + i],
    )
}

/// The header from `start` through the packet number, its protection taken off.
pub open spec fn plain_header(
    packet: Seq<u8>,
    start: int,
    pn_offset: int,
    mask: Seq<u8>,
) -> Seq<u8> {
    seq![plain_first(packet, start, mask)] + packet.subrange(start + 1, pn_offset)
        + plain_packet_number(packet, start, pn_offset, mask)
}

/// Takes the protection off a header with the mask that the sample gave.
pub fn quic_unprotect_header(
    packet: &[u8],
    packet_start: usize,
    pn_offset: usize,
    mask: &[u8; 16],
) -> (r: PlainHeader)
    requires
        packet_start < pn_offset,
        pn_offset + 4 <= packet@.len(),
    ensures
        r.header@ == plain_header(packet@, packet_start as int, pn_offset as int, mask@),
        r.packet_number == bytes::be_value(
            plain_packet_number(packet@, packet_start as int, pn_offset as int, mask@),
        ),
        r.payload_at == pn_offset + packet_number_len(packet@, packet_start as int, mask@),
        pn_offset < r.payload_at <= pn_offset + 4,
{
    let first = packet[packet_start] ^ (mask[0] & 0x0f);
    assert(first & 0x03 <= 3) by (bit_vector);
    let pn_len: usize = (first & 0x03) as usize + 1;
    let mut header: Vec<u8> = Vec::new();
    header.push(first);
    bytes::append_bytes(&mut header, packet, packet_start + 1, pn_offset);
    let ghost pn = plain_packet_number(packet@, packet_start as int, pn_offset as int, mask@);
    let ghost head = seq![first] + packet@.subrange(packet_start + 1, pn_offset as int);
    let mut number: u64 = 0;
    let mut i: usize = 0;
    proof {
        assert(pn.take(0) =~= Seq::empty());
        assert(header@ =~= head + pn.take(0));
        bytes::lemma_pow256_values();
    }
    while i < pn_len
        invariant
            i <= pn_len <= 4,
            pn_offset + 4 <= packet.len(),
            pn.len() == pn_len,
            pn == plain_packet_number(packet@, packet_start as int, pn_offset as int, mask@),
            header@ == head + pn.take(i as int),
            number == bytes::be_value(pn.take(i as int)),
        decreases pn_len - i,
    {
        let b = packet[pn_offset + i] ^ mask[1 + i];
        proof {
            bytes::lemma_be_value_bound(pn.take(i as int));
            bytes::lemma_pow256_values();
            bytes::lemma_pow256_monotonic(i as nat, 4);
            assert(pn.take(i + 1).drop_last() =~= pn.take(i as int));
            assert(pn.take(i + 1) =~= pn.take(i as int).push(b));
            assert((head + pn.take(i as int)).push(b) =~= head + pn.take(i + 1));
        }
        header.push(b);
        number = number * 256 + b as u64;
        i += 1;
    }
    assert(pn.take(pn_len as int) =~= pn);
    PlainHeader { header, packet_number: number, payload_at: pn_offset + pn_len }
}

/// The mask for a header: the sample of 16 bytes that starts four bytes after
/// the packet number, under the header protection key.
pub open spec fn header_mask(packet: Seq<u8>, pn_offset: int, keys: InitialKeys) -> Seq<u8> {
    quic_crypto::aes128_block(keys.hp_key, packet.subrange(pn_offset + 4, pn_offset + 20))
}

/// The payload of the packet that stands from `start` to `end` and has its
/// packet number at `pn_offset`.
pub open spec fn open_packet(
    packet: Seq<u8>,
    start: int,
    pn_offset: int,
    end: int,
    keys: InitialKeys,
) -> Result<Seq<u8>, UdpSniffError> {
    let mask = header_mask(packet, pn_offset, keys);
    let number = bytes::be_value(plain_packet_number(packet, start, pn_offset, mask));
    let payload_at = pn_offset + packet_number_len(packet, start, mask);
    if end > packet.len() || pn_offset + 20 > end {
        Err(UdpSniffError::InsufficientPrefix)
    } else {
        match quic_crypto::aes128_gcm_plaintext(
            keys.key,
            nonce_of(keys.iv, number),
            plain_header(packet, start, pn_offset, mask),
            packet.subrange(payload_at, end),
        ) {
            Some(plaintext) => Ok(plaintext),
            None => Err(UdpSniffError::ProtocolNotMatched),
        }
    }
}

pub open spec fn bytes_result<E>(r: Result<Vec<u8>, E>) -> Result<Seq<u8>, E> {
    match r {
        Ok(v) => Ok(v@),
        Err(e) => Err(e),
    }
}

/// Takes the header protection off a packet and decrypts its payload.
pub fn quic_remove_header_protection_and_decrypt(
    packet: &[u8],
    packet_start: usize,
    pn_offset: usize,
    packet_end: usize,
    keys: &QuicInitialKeys,
) -> (r: Result<Vec<u8>, UdpSniffError>)
    requires
        packet_start < pn_offset,
    ensures
        bytes_result(r) == open_packet(
            packet@,
            packet_start as int,
            pn_offset as int,
            packet_end as int,
            keys@,
        ),
{
    if packet_end > packet.len() || packet_end <= pn_offset || packet_end - pn_offset < 20 {
        return Err(UdpSniffError::InsufficientPrefix);
    }
    let sample = array_16(slice_subrange(packet, pn_offset + 4, pn_offset + 20));
    let mask = aes128_encrypt(&keys.hp_key, &sample);
    let plain = quic_unprotect_header(packet, packet_start, pn_offset, &mask);
    let nonce = quic_build_nonce(&keys.iv, plain.packet_number);
    let sealed = slice_subrange(packet, plain.payload_at, packet_end);
    match aes128_gcm_open(&keys.key, &nonce, plain.header.as_slice(), sealed) {
        Some(plaintext) => Ok(plaintext),
        None => Err(UdpSniffError::ProtocolNotMatched),
    }
}

// ---------------------------------------------------------------------------
// Frames
// ---------------------------------------------------------------------------

/// Where `n` variable-length numbers from `off` end, and whether all are there.
/// When one is missing, the place is where it should start.
pub open spec fn after_varints(frames: Seq<u8>, off: int, n: nat) -> (int, bool)
    decreases n,
{
    if n == 0 {
        (off, true)
    } else {
        match varint_at(frames, off) {
            Some((_, next)) => after_varints(frames, next, (n - 1) as nat),
            None => (off, false),
        }
    }
}

/// Where an ACK frame ends whose content starts at `off`, and whether it is
/// complete: the largest acknowledged number, the delay, the count of ranges,
/// the first range, two numbers for each range, and three counts in frames of
/// type 3.
pub open spec fn after_ack(frame_type: int, frames: Seq<u8>, off: int) -> (int, bool) {
    let (count_at, ok) = after_varints(frames, off, 2);
    if !ok {
        (count_at, false)
    } else {
        match varint_at(frames, count_at) {
            None => (count_at, false),
            Some((count, next)) => after_varints(
                frames,
                next,
                (1 + 2 * count + (if frame_type == 3 {
                    3int
                } else {
                    0
                })) as nat,
            ),
        }
    }
}

fn skip_varints(frames: &[u8], off: &mut usize, n: u64) -> (r: Result<(), UdpSniffError>)
    ensures
        after_varints(frames@, *old(off) as int, n as nat) == (*final(off) as int, r is Ok),
        r matches Err(e) ==> e == UdpSniffError::InsufficientPrefix,
{
    let mut left: u64 = n;
    while left > 0
        invariant
            after_varints(frames@, *old(off) as int, n as nat) == after_varints(
                frames@,
                *off as int,
                left as nat,
            ),
        decreases left,
    {
        quic_read_varint(frames, off)?;
        left -= 1;
    }
    Ok(())
}

/// Moves past the content of an ACK frame.
pub fn quic_skip_ack_frame(frame_type: u64, frames: &[u8], off: &mut usize) -> (r: Result<
    (),
    UdpSniffError,
>)
    ensures
        after_ack(frame_type as int, frames@, *old(off) as int) == (*final(off) as int, r is Ok),
        r matches Err(e) ==> e == UdpSniffError::InsufficientPrefix,
{
    skip_varints(frames, off, 2)?;
    let count = quic_read_varint(frames, off)?;
    let counts: u64 = if frame_type == 3 {
        3
    } else {
        0
    };
    skip_varints(frames, off, 1 + 2 * count + counts)
}

/// Where a CONNECTION_CLOSE frame ends whose content starts at `off`, and
/// whether it is complete: an error code, a frame type, and a reason with its
/// length.
pub open spec fn after_close(frames: Seq<u8>, off: int) -> (int, bool) {
    let (len_at, ok) = after_varints(frames, off, 2);
    if !ok {
        (len_at, false)
    } else {
        match varint_at(frames, len_at) {
            None => (len_at, false),
            Some((len, next)) => if next + len > frames.len() {
                (next, false)
            } else {
                (next + len, true)
            },
        }
    }
}

/// Moves past the content of a CONNECTION_CLOSE frame.
pub fn quic_skip_connection_close_frame(frames: &[u8], off: &mut usize) -> (r: Result<
    (),
    UdpSniffError,
>)
    ensures
        after_close(frames@, *old(off) as int) == (*final(off) as int, r is Ok),
        r matches Err(e) ==> e == UdpSniffError::InsufficientPrefix,
{
    skip_varints(frames, off, 2)?;
    let reason_len = quic_read_varint(frames, off)?;
    if reason_len > (frames.len() - *off) as u64 {
        return Err(UdpSniffError::InsufficientPrefix);
    }
    *off = *off + reason_len as usize;
    Ok(())
}

proof fn lemma_after_varints(frames: Seq<u8>, off: int, n: nat)
    requires
        off <= frames.len(),
    ensures
        off <= after_varints(frames, off, n).0 <= frames.len(),
    decreases n,
{
    if n > 0 {
        if let Some((_, next)) = varint_at(frames, off) {
            lemma_after_varints(frames, next, (n - 1) as nat);
        }
    }
}

proof fn lemma_after_ack(frame_type: int, frames: Seq<u8>, off: int)
    requires
        off <= frames.len(),
    ensures
        off <= after_ack(frame_type, frames, off).0 <= frames.len(),
{
    lemma_after_varints(frames, off, 2);
    let count_at = after_varints(frames, off, 2).0;
    if let Some((count, next)) = varint_at(frames, count_at) {
        let n = (1 + 2 * count + (if frame_type == 3 {
            3int
        } else {
            0
        })) as nat;
        lemma_after_varints(frames, next, n);
    }
}

proof fn lemma_after_close(frames: Seq<u8>, off: int)
    requires
        off <= frames.len(),
    ensures
        off <= after_close(frames, off).0 <= frames.len(),
{
    lemma_after_varints(frames, off, 2);
}

/// What the frames from `off` do to the handshake. Padding, PING, ACK and
/// CONNECTION_CLOSE frames are passed over, CRYPTO frames carry pieces of the
/// handshake, and any other frame does not belong in an Initial packet. Pieces
/// before an error stay.
pub open spec fn run_frames(frames: Seq<u8>, off: int, s: CryptoStream) -> (
    CryptoStream,
    Result<(), UdpSniffError>,
)
    decreases frames.len() - off,
    via run_frames_decreases
{
    if off >= frames.len() {
        (s, Ok(()))
    } else {
        match varint_at(frames, off) {
            None => (s, Err(UdpSniffError::InsufficientPrefix)),
            Some((ty, at)) => if ty == 0 || ty == 1 {
                run_frames(frames, at, s)
            } else if ty == 2 || ty == 3 {
                let (next, ok) = after_ack(ty, frames, at);
                if ok {
                    run_frames(frames, next, s)
                } else {
                    (s, Err(UdpSniffError::InsufficientPrefix))
                }
            } else if ty == 6 {
                run_crypto_frame(frames, at, s)
            } else if ty == 0x1c {
                let (next, ok) = after_close(frames, at);
                if ok {
                    run_frames(frames, next, s)
                } else {
                    (s, Err(UdpSniffError::InsufficientPrefix))
                }
            } else {
                (s, Err(UdpSniffError::ProtocolNotMatched))
            },
        }
    }
}

/// What a CRYPTO frame whose content starts at `at`, and the frames after it, do
/// to the handshake: an offset, a length, and that many bytes.
pub open spec fn run_crypto_frame(frames: Seq<u8>, at: int, s: CryptoStream) -> (
    CryptoStream,
    Result<(), UdpSniffError>,
)
    decreases frames.len() - at,
    via run_crypto_frame_decreases
{
    match varint_at(frames, at) {
        None => (s, Err(UdpSniffError::InsufficientPrefix)),
        Some((offset, len_at)) => match varint_at(frames, len_at) {
            None => (s, Err(UdpSniffError::InsufficientPrefix)),
            Some((len, data_at)) => if data_at + len > frames.len() {
                (s, Err(UdpSniffError::InsufficientPrefix))
            } else if offset + len > QUIC_CRYPTO_REASSEMBLY_CAP {
                (s, Err(UdpSniffError::TooLarge))
            } else {
                run_frames(
                    frames,
                    data_at + len,
                    s.with(offset, frames.subrange(data_at, data_at + len)),
                )
            },
        },
    }
}

#[via_fn]
proof fn run_frames_decreases(frames: Seq<u8>, off: int, s: CryptoStream) {
    if off < frames.len() {
        if let Some((ty, at)) = varint_at(frames, off) {
            lemma_after_ack(ty, frames, at);
            lemma_after_close(frames, at);
        }
    }
}

#[via_fn]
proof fn run_crypto_frame_decreases(frames: Seq<u8>, at: int, s: CryptoStream) {
}

/// Takes the pieces of the handshake out of the frames of an Initial packet.
pub fn quic_parse_initial_frames(frames: &[u8], crypto: &mut QuicCryptoReassembly) -> (r: Result<
    (),
    UdpSniffError,
>)
    requires
        old(crypto).wf(),
    ensures
        final(crypto).wf(),
        run_frames(frames@, 0, old(crypto)@) == (final(crypto)@, r),
{
    let mut off: usize = 0;
    while off < frames.len()
        invariant
            off <= frames.len(),
            crypto.wf(),
            run_frames(frames@, 0, old(crypto)@) == run_frames(frames@, off as int, crypto@),
        decreases frames.len() - off,
    {
        let ghost start = off as int;
        let frame_type = quic_read_varint(frames, &mut off)?;
        let ghost at = off as int;
        if frame_type == 0 || frame_type == 1 {
        } else if frame_type == 2 || frame_type == 3 {
            proof {
                lemma_after_ack(frame_type as int, frames@, at);
            }
            quic_skip_ack_frame(frame_type, frames, &mut off)?;
        } else if frame_type == 6 {
            assert(run_frames(frames@, start, crypto@) == run_crypto_frame(frames@, at, crypto@));
            reveal_with_fuel(run_crypto_frame, 2);
            let crypto_offset = quic_read_varint(frames, &mut off)?;
            let crypto_len = quic_read_varint(frames, &mut off)?;
            if crypto_len > (frames.len() - off) as u64 {
                return Err(UdpSniffError::InsufficientPrefix);
            }
            if crypto_offset > QUIC_CRYPTO_REASSEMBLY_CAP as u64 {
                return Err(UdpSniffError::TooLarge);
            }
            let end: usize = off + crypto_len as usize;
            crypto.write(crypto_offset as usize, slice_subrange(frames, off, end))?;
            off = end;
        } else if frame_type == 0x1c {
            proof {
                lemma_after_close(frames@, at);
            }
            quic_skip_connection_close_frame(frames, &mut off)?;
        } else {
            return Err(UdpSniffError::ProtocolNotMatched);
        }
    }
    Ok(())
}

// ---------------------------------------------------------------------------
// Packets
// ---------------------------------------------------------------------------

/// The packet type that marks an Initial packet in a version.
pub open spec fn initial_type(version: u32) -> int {
    if version == QUIC_VERSION_V2 {
        1
    } else {
        0
    }
}

/// The version, the destination connection id, and where that ends, of the
/// Initial packet at `start`: a byte with the two highest bits set and the type
/// in the next two, the version in four bytes, and the id with its length,
/// at most 20.
pub open spec fn initial_dest(d: Seq<u8>, start: int) -> Result<
    (u32, Seq<u8>, int),
    UdpSniffError,
> {
    let version = bytes::be_value(d.subrange(start + 1, start + 5)) as u32;
    let dcid_len = d[start + 5] as int;
    if start >= d.len() {
        Err(UdpSniffError::InsufficientPrefix)
    } else if d[start] < 0xc0 {
        Err(UdpSniffError::ProtocolNotMatched)
    } else if start + 5 > d.len() {
        Err(UdpSniffError::InsufficientPrefix)
    } else if initial_salt(version) is None || (d[start] / 16) % 4 != initial_type(version) {
        Err(UdpSniffError::ProtocolNotMatched)
    } else if start + 6 > d.len() {
        Err(UdpSniffError::InsufficientPrefix)
    } else if dcid_len > 20 {
        Err(UdpSniffError::ProtocolNotMatched)
    } else if start + 6 + dcid_len > d.len() {
        Err(UdpSniffError::InsufficientPrefix)
    } else {
        Ok((version, d.subrange(start + 6, start + 6 + dcid_len), start + 6 + dcid_len))
    }
}

/// Where the packet number of an Initial packet is and where the packet ends,
/// when its destination id ends at `off`: the source id with its length, at most
/// 20, a token with its length, and the length of the rest, not zero.
pub open spec fn initial_payload(d: Seq<u8>, off: int) -> Result<(int, int), UdpSniffError> {
    let scid_len = d[off] as int;
    if off >= d.len() {
        Err(UdpSniffError::InsufficientPrefix)
    } else if scid_len > 20 {
        Err(UdpSniffError::ProtocolNotMatched)
    } else if off + 1 + scid_len > d.len() {
        Err(UdpSniffError::InsufficientPrefix)
    } else {
        match varint_at(d, off + 1 + scid_len) {
            None => Err(UdpSniffError::InsufficientPrefix),
            Some((token_len, token_at)) => if token_at + token_len > d.len() {
                Err(UdpSniffError::InsufficientPrefix)
            } else {
                match varint_at(d, token_at + token_len) {
                    None => Err(UdpSniffError::InsufficientPrefix),
                    Some((len, pn_offset)) => if len == 0 {
                        Err(UdpSniffError::ProtocolNotMatched)
                    } else if pn_offset + len > d.len() {
                        Err(UdpSniffError::InsufficientPrefix)
                    } else {
                        Ok((pn_offset, pn_offset + len))
                    },
                }
            },
        }
    }
}

/// What the packet at `start` does to the handshake, and where it ends.
pub open spec fn run_packet(d: Seq<u8>, start: int, s: CryptoStream) -> (
    CryptoStream,
    Result<int, UdpSniffError>,
) {
    match initial_dest(d, start) {
        Err(e) => (s, Err(e)),
        Ok((version, dcid, off)) => {
            let s = s.adopting(dcid);
            match initial_payload(d, off) {
                Err(e) => (s, Err(e)),
                Ok((pn_offset, end)) => {
                    let keys = initial_keys(initial_salt(version)->0, dcid);
                    match open_packet(d, start, pn_offset, end, keys) {
                        Err(e) => (s, Err(e)),
                        Ok(frames) => match run_frames(frames, 0, s) {
                            (s, Ok(())) => (s, Ok(end)),
                            (s, Err(e)) => (s, Err(e)),
                        },
                    }
                },
            }
        },
    }
}

pub open spec fn end_result(r: Result<usize, UdpSniffError>) -> Result<int, UdpSniffError> {
    match r {
        Ok(end) => Ok(end as int),
        Err(e) => Err(e),
    }
}

proof fn lemma_packet_end(d: Seq<u8>, start: int, s: CryptoStream)
    requires
        0 <= start,
    ensures
        run_packet(d, start, s).1 matches Ok(end) ==> start < end <= d.len(),
{
}

fn read_initial_dest(d: &[u8], start: usize) -> (r: Result<(u32, usize, usize), UdpSniffError>)
    ensures
        match r {
            Ok((version, from, to)) => from <= to <= d@.len() && initial_dest(d@, start as int)
                == Ok::<(u32, Seq<u8>, int), UdpSniffError>(
                (version, d@.subrange(from as int, to as int), to as int),
            ),
            Err(e) => initial_dest(d@, start as int) == Err::<
                (u32, Seq<u8>, int),
                UdpSniffError,
            >(e),
        },
{
    if start >= d.len() {
        return Err(UdpSniffError::InsufficientPrefix);
    }
    let first = d[start];
    if first < 0xc0 {
        return Err(UdpSniffError::ProtocolNotMatched);
    }
    if d.len() - start < 5 {
        return Err(UdpSniffError::InsufficientPrefix);
    }
    proof {
        bytes::lemma_be_value_bound(d@.subrange(start + 1, start + 5));
        bytes::lemma_pow256_values();
    }
    let version = quic_read_u32(d, start + 1)?;
    if quic_initial_salt(version).is_none() {
        return Err(UdpSniffError::ProtocolNotMatched);
    }
    let want: u8 = if version == QUIC_VERSION_V2 {
        1
    } else {
        0
    };
    if (first / 16) % 4 != want {
        return Err(UdpSniffError::ProtocolNotMatched);
    }
    if d.len() - start < 6 {
        return Err(UdpSniffError::InsufficientPrefix);
    }
    let dcid_len = d[start + 5] as usize;
    if dcid_len > 20 {
        return Err(UdpSniffError::ProtocolNotMatched);
    }
    if d.len() - start - 6 < dcid_len {
        return Err(UdpSniffError::InsufficientPrefix);
    }
    Ok((version, start + 6, start + 6 + dcid_len))
}

fn read_initial_payload(d: &[u8], off: usize) -> (r: Result<(usize, usize), UdpSniffError>)
    ensures
        match r {
            Ok((pn_offset, end)) => off < pn_offset < end <= d@.len() && initial_payload(
                d@,
                off as int,
            ) == Ok::<(int, int), UdpSniffError>((pn_offset as int, end as int)),
            Err(e) => initial_payload(d@, off as int) == Err::<(int, int), UdpSniffError>(e),
        },
{
    if off >= d.len() {
        return Err(UdpSniffError::InsufficientPrefix);
    }
    let scid_len = d[off] as usize;
    if scid_len > 20 {
        return Err(UdpSniffError::ProtocolNotMatched);
    }
    if d.len() - off - 1 < scid_len {
        return Err(UdpSniffError::InsufficientPrefix);
    }
    let mut at: usize = off + 1 + scid_len;
    let token_len = quic_read_varint(d, &mut at)?;
    if token_len > (d.len() - at) as u64 {
        return Err(UdpSniffError::InsufficientPrefix);
    }
    at = at + token_len as usize;
    let len = quic_read_varint(d, &mut at)?;
    if len == 0 {
        return Err(UdpSniffError::ProtocolNotMatched);
    }
    if len > (d.len() - at) as u64 {
        return Err(UdpSniffError::InsufficientPrefix);
    }
    Ok((at, at + len as usize))
}

/// Takes the pieces of the handshake out of the Initial packet at
/// `packet_start`, and says where it ends.
pub fn quic_parse_one_initial_packet(
    datagram: &[u8],
    packet_start: usize,
    crypto: &mut QuicCryptoReassembly,
) -> (r: Result<usize, UdpSniffError>)
    requires
        old(crypto).wf(),
    ensures
        final(crypto).wf(),
        run_packet(datagram@, packet_start as int, old(crypto)@) == (final(crypto)@, end_result(r)),
{
    let (version, from, to) = read_initial_dest(datagram, packet_start)?;
    let dcid = slice_subrange(datagram, from, to);
    crypto.adopt_dcid(dcid);
    let (pn_offset, packet_end) = read_initial_payload(datagram, to)?;
    let keys = derive_quic_initial_keys(version, dcid)?;
    let frames = quic_remove_header_protection_and_decrypt(
        datagram,
        packet_start,
        pn_offset,
        packet_end,
        &keys,
    )?;
    quic_parse_initial_frames(frames.as_slice(), crypto)?;
    Ok(packet_end)
}

// ---------------------------------------------------------------------------
// The server name
// ---------------------------------------------------------------------------

/// What a failure of the TLS parser is called for a UDP flow.
pub open spec fn udp_error_of(err: TlsSniffError) -> UdpSniffError {
    match err {
        TlsSniffError::PeekEmpty => UdpSniffError::InsufficientPrefix,
        TlsSniffError::InsufficientPrefix => UdpSniffError::InsufficientPrefix,
        TlsSniffError::ProtocolNotMatched => UdpSniffError::ProtocolNotMatched,
        TlsSniffError::TlsNoSni => UdpSniffError::NoTarget,
        TlsSniffError::ParseError => UdpSniffError::ParseError,
        TlsSniffError::InvalidHostname => UdpSniffError::InvalidHostname,
        TlsSniffError::TooLargeClientHello => UdpSniffError::TooLarge,
    }
}

impl vstd::std_specs::convert::FromSpecImpl<TlsSniffError> for UdpSniffError {
    open spec fn obeys_from_spec() -> bool {
        true
    }

    open spec fn from_spec(err: TlsSniffError) -> UdpSniffError {
        udp_error_of(err)
    }
}

impl From<TlsSniffError> for UdpSniffError {
    fn from(err: TlsSniffError) -> (r: UdpSniffError) {
        match err {
            TlsSniffError::PeekEmpty => UdpSniffError::InsufficientPrefix,
            TlsSniffError::InsufficientPrefix => UdpSniffError::InsufficientPrefix,
            TlsSniffError::ProtocolNotMatched => UdpSniffError::ProtocolNotMatched,
            TlsSniffError::TlsNoSni => UdpSniffError::NoTarget,
            TlsSniffError::ParseError => UdpSniffError::ParseError,
            TlsSniffError::InvalidHostname => UdpSniffError::InvalidHostname,
            TlsSniffError::TooLargeClientHello => UdpSniffError::TooLarge,
        }
    }
}

/// The server name in the handshake bytes that are complete.
pub open spec fn sni_of_handshake(crypto: Seq<u8>) -> Result<Seq<char>, UdpSniffError> {
    let total = 4 + crypto[1] * 65536 + crypto[2] * 256 + crypto[3];
    if crypto.len() < 4 {
        Err(UdpSniffError::InsufficientPrefix)
    } else if crypto[0] != 1 {
        Err(UdpSniffError::ProtocolNotMatched)
    } else if total > QUIC_CRYPTO_REASSEMBLY_CAP {
        Err(UdpSniffError::TooLarge)
    } else if crypto.len() < total {
        Err(UdpSniffError::InsufficientPrefix)
    } else {
        match tls_common::sni_of_client_hello(crypto.subrange(4, total)) {
            Ok(host) => Ok(host),
            Err(e) => Err(udp_error_of(e)),
        }
    }
}

/// The server name in the ClientHello at the start of the handshake.
pub fn quic_parse_tls_client_hello_from_crypto(crypto: &[u8]) -> (r: Result<String, UdpSniffError>)
    ensures
        sniff::text_result(r) == sni_of_handshake(crypto@),
{
    if crypto.len() < 4 {
        return Err(UdpSniffError::InsufficientPrefix);
    }
    if crypto[0] != 1 {
        return Err(UdpSniffError::ProtocolNotMatched);
    }
    let hs_len: usize = match be_u24(slice_subrange(crypto, 1, 4)) {
        Ok(n) => n,
        Err(_) => {
            return Err(UdpSniffError::ParseError);
        },
    };
    let total: usize = 4 + hs_len;
    if total > QUIC_CRYPTO_REASSEMBLY_CAP {
        return Err(UdpSniffError::TooLarge);
    }
    if crypto.len() < total {
        return Err(UdpSniffError::InsufficientPrefix);
    }
    match parse_sni_from_client_hello_body(slice_subrange(crypto, 4, total)) {
        Ok(host) => Ok(host),
        Err(e) => Err(UdpSniffError::from(e)),
    }
}

/// What the packets of a datagram from `off` do to the handshake, and the server
/// name once a ClientHello is complete. Behind the first Initial packet a packet
/// of another kind ends the search.
pub open spec fn run_packets(d: Seq<u8>, off: int, saw_initial: bool, s: CryptoStream) -> (
    CryptoStream,
    Result<Seq<char>, UdpSniffError>,
)
    decreases d.len() - off,
    via run_packets_decreases
{
    if off < 0 || off >= d.len() {
        (
            s,
            if saw_initial {
                Err(UdpSniffError::InsufficientPrefix)
            } else {
                Err(UdpSniffError::ProtocolNotMatched)
            },
        )
    } else {
        let (next_s, r) = run_packet(d, off, s);
        match r {
            Ok(end) => match sni_of_handshake(contiguous_of(next_s.received)) {
                Ok(host) => (next_s, Ok(host)),
                Err(UdpSniffError::InsufficientPrefix) => run_packets(d, end, true, next_s),
                Err(e) => (next_s, Err(e)),
            },
            Err(UdpSniffError::ProtocolNotMatched) => if saw_initial {
                (next_s, Err(UdpSniffError::InsufficientPrefix))
            } else {
                (next_s, Err(UdpSniffError::ProtocolNotMatched))
            },
            Err(e) => (next_s, Err(e)),
        }
    }
}

#[via_fn]
proof fn run_packets_decreases(d: Seq<u8>, off: int, saw_initial: bool, s: CryptoStream) {
    if 0 <= off < d.len() {
        lemma_packet_end(d, off, s);
    }
}

/// The part of a datagram that is looked at.
pub open spec fn within_cap(d: Seq<u8>) -> Seq<u8> {
    if d.len() <= QUIC_SNI_INPUT_CAP {
        d
    } else {
        d.take(QUIC_SNI_INPUT_CAP as int)
    }
}

/// What a datagram does to the handshake, and the server name once a ClientHello
/// is complete.
pub open spec fn run_datagram(d: Seq<u8>, s: CryptoStream) -> (
    CryptoStream,
    Result<Seq<char>, UdpSniffError>,
) {
    if d.len() == 0 {
        (s, Err(UdpSniffError::InsufficientPrefix))
    } else if d[0] < 0xc0 {
        (s, Err(UdpSniffError::ProtocolNotMatched))
    } else {
        run_packets(within_cap(d), 0, false, s)
    }
}

/// Adds a datagram to the handshake of its flow, and gives the server name once
/// the ClientHello is complete. `InsufficientPrefix` means that another datagram
/// may complete it.
pub fn sniff_quic_sni_from_datagram_with_reassembly(
    datagram: &[u8],
    crypto: &mut QuicCryptoReassembly,
) -> (r: Result<String, UdpSniffError>)
    requires
        old(crypto).wf(),
    ensures
        final(crypto).wf(),
        run_datagram(datagram@, old(crypto)@) == (final(crypto)@, sniff::text_result(r)),
{
    if datagram.len() == 0 {
        return Err(UdpSniffError::InsufficientPrefix);
    }
    if datagram[0] < 0xc0 {
        return Err(UdpSniffError::ProtocolNotMatched);
    }
    let cap: usize = if datagram.len() <= QUIC_SNI_INPUT_CAP {
        datagram.len()
    } else {
        QUIC_SNI_INPUT_CAP
    };
    let d = slice_subrange(datagram, 0, cap);
    assert(d@ =~= within_cap(datagram@));
    let mut off: usize = 0;
    let mut saw_initial = false;
    while off < d.len()
        invariant
            off <= d.len(),
            crypto.wf(),
            d@ == within_cap(datagram@),
            run_datagram(datagram@, old(crypto)@) == run_packets(
                d@,
                off as int,
                saw_initial,
                crypto@,
            ),
        decreases d.len() - off,
    {
        proof {
            lemma_packet_end(d@, off as int, crypto@);
        }
        match quic_parse_one_initial_packet(d, off, crypto) {
            Ok(next_off) => {
                match quic_parse_tls_client_hello_from_crypto(crypto.contiguous()) {
                    Ok(host) => {
                        return Ok(host);
                    },
                    Err(UdpSniffError::InsufficientPrefix) => {},
                    Err(e) => {
                        return Err(e);
                    },
                }
                saw_initial = true;
                off = next_off;
            },
            Err(UdpSniffError::ProtocolNotMatched) => {
                return if saw_initial {
                    Err(UdpSniffError::InsufficientPrefix)
                } else {
                    Err(UdpSniffError::ProtocolNotMatched)
                };
            },
            Err(e) => {
                return Err(e);
            },
        }
    }
    if saw_initial {
        Err(UdpSniffError::InsufficientPrefix)
    } else {
        Err(UdpSniffError::ProtocolNotMatched)
    }
}

/// Finds the server name of QUIC connections.
pub struct QuicSniUdpSniffer;

impl UdpSnifferEngine for QuicSniUdpSniffer {
    type Session = QuicSniUdpSnifferSession;

    open spec fn engine_name(&self) -> Seq<char> {
        "quic_sni"@
    }

    fn name(&self) -> (r: &'static str) {
        "quic_sni"
    }

    fn new_session(&self) -> (r: QuicSniUdpSnifferSession)
        ensures
            r@ == CryptoStream::empty(),
    {
        QuicSniUdpSnifferSession::new()
    }
}

/// One QUIC connection under observation.
pub struct QuicSniUdpSnifferSession {
    quic_crypto: QuicCryptoReassembly,
}

impl View for QuicSniUdpSnifferSession {
    type V = CryptoStream;

    closed spec fn view(&self) -> CryptoStream {
        self.quic_crypto@
    }
}

impl QuicSniUdpSnifferSession {
    pub fn new() -> (r: Self)
        ensures
            r.valid(),
            r@ == CryptoStream::empty(),
    {
        QuicSniUdpSnifferSession { quic_crypto: QuicCryptoReassembly::new() }
    }
}

/// What the result for a datagram means to the observer of the flow.
pub open spec fn outcome_of_result(r: Result<Seq<char>, UdpSniffError>) -> Outcome {
    match r {
        Ok(host) => Outcome::Matched { protocol: UdpSniffProtocol::QuicSni, host },
        Err(UdpSniffError::ProtocolNotMatched) => Outcome::NotMatched,
        Err(UdpSniffError::InsufficientPrefix) => Outcome::NeedMore {
            protocol: UdpSniffProtocol::QuicSni,
        },
        Err(error) => Outcome::Failed { protocol: UdpSniffProtocol::QuicSni, error },
    }
}

impl UdpSnifferSessionEngine for QuicSniUdpSnifferSession {
    closed spec fn valid(&self) -> bool {
        self.quic_crypto.wf()
    }

    open spec fn outcome_of(&self, payload: Seq<u8>) -> Outcome {
        outcome_of_result(run_datagram(payload, self@).1)
    }

    fn feed(&mut self, payload: &[u8]) -> (r: UdpSniffOutcome)
        ensures
            final(self)@ == run_datagram(payload@, old(self)@).0,
    {
        match sniff_quic_sni_from_datagram_with_reassembly(payload, &mut self.quic_crypto) {
            Ok(host) => UdpSniffOutcome::Matched { protocol: UdpSniffProtocol::QuicSni, host },
            Err(UdpSniffError::ProtocolNotMatched) => UdpSniffOutcome::NotMatched,
            Err(UdpSniffError::InsufficientPrefix) => UdpSniffOutcome::NeedMore {
                protocol: UdpSniffProtocol::QuicSni,
            },
            Err(error) => UdpSniffOutcome::Failed { protocol: UdpSniffProtocol::QuicSni, error },
        }
    }
}

proof fn lemma_packet_hosts(d: Seq<u8>, off: int, saw_initial: bool, s: CryptoStream)
    ensures
        run_packets(d, off, saw_initial, s).1 matches Ok(h) ==> tls_common::is_lower_hostname(h),
    decreases d.len() - off,
{
    if 0 <= off < d.len() {
        lemma_packet_end(d, off, s);
        let (next_s, r) = run_packet(d, off, s);
        if let Ok(end) = r {
            let crypto = contiguous_of(next_s.received);
            let total = 4 + crypto[1] * 65536 + crypto[2] * 256 + crypto[3];
            tls_common::sni_is_a_lower_case_hostname(crypto.subrange(4, total));
            lemma_packet_hosts(d, end, true, next_s);
        }
    }
}

/// Whatever a flow carries, a name taken from it is a host name in lower case.
pub proof fn quic_sni_is_a_lower_case_hostname(d: Seq<u8>, s: CryptoStream)
    ensures
        run_datagram(d, s).1 matches Ok(h) ==> tls_common::is_lower_hostname(h),
{
    if d.len() > 0 {
        lemma_packet_hosts(within_cap(d), 0, false, s);
    }
}

/// A datagram that does not start like a QUIC packet with a long header leaves
/// the handshake of the flow alone.
pub proof fn other_datagrams_change_nothing(d: Seq<u8>, s: CryptoStream)
    requires
        d.len() > 0,
        d[0] < 0xc0,
    ensures
        run_datagram(d, s) == (
            s,
            Err::<Seq<char>, UdpSniffError>(UdpSniffError::ProtocolNotMatched),
        ),
{
}

/// A packet of another connection starts over: it does the same as if nothing
/// had arrived before.
pub proof fn another_connection_starts_over(d: Seq<u8>, start: int, s: CryptoStream, last: Seq<u8>)
    requires
        s.last_dcid == Some(last),
        initial_dest(d, start) matches Ok((_, dcid, _)) && dcid != last,
    ensures
        run_packet(d, start, s) == run_packet(d, start, CryptoStream::empty()),
{
}

} // verus!
