//! QUIC packets as they are sent, and what is read of them.

use crate::bytes;
use crate::sniff::quic;
use crate::sniff::quic::{CryptoStream, InitialKeys};
use crate::sniff::quic_crypto;
use crate::sniff::tls;
use crate::sniff::tls_common;
use crate::sniff::udp::UdpSniffError;
use vstd::prelude::*;
use vstd::utf8::*;

verus! {

// ---------------------------------------------------------------------------
// Numbers
// ---------------------------------------------------------------------------

/// The two highest bits of a variable-length number of `n` bytes, as they count in
/// its first byte.
pub open spec fn length_mark(n: nat) -> int {
    if n == 1 {
        0
    } else if n == 2 {
        64
    } else if n == 4 {
        128
    } else {
        192
    }
}

/// A number can be written in `n` bytes of variable length.
pub open spec fn fits(v: nat, n: nat) -> bool {
    ||| n == 1 && v < 64
    ||| n == 2 && v < 16384
    ||| n == 4 && v < 0x4000_0000
    ||| n == 8 && v < 0x4000_0000_0000_0000
}

/// A number in `n` bytes of variable length, as it is sent.
pub open spec fn number(v: nat, n: nat) -> Seq<u8> {
    let digits = bytes::be_bytes(v, n);
    digits.update(0, (digits[0] + length_mark(n)) as u8)
}

/// A variable-length number is read back wherever it stands, in each of its four
/// lengths, and not before it has arrived whole.
pub proof fn numbers_are_read_back(before: Seq<u8>, v: nat, n: nat, behind: Seq<u8>, cut: int)
    requires
        fits(v, n),
    ensures
        number(v, n).len() == n,
        quic::varint_at(before + number(v, n) + behind, before.len() as int) == Some(
            (v as int, (before.len() + n) as int),
        ),
        0 <= cut < n ==> quic::varint_at(before + number(v, n).take(cut), before.len() as int) is None,
{
    let digits = bytes::be_bytes(v, n);
    let s = before + number(v, n) + behind;
    let off = before.len() as int;
    bytes::lemma_be_bytes_len(v, n);
    bytes::lemma_pow256_values();
    assert(bytes::pow256(3) * 256 == bytes::pow256(4));
    assert(bytes::pow256(7) * 256 == bytes::pow256(8));
    assert(bytes::pow256(1) == 256 * bytes::pow256(0));
    bytes::be_value_of_be_bytes(v, n);
    let head = digits.take(1);
    let tail = digits.skip(1);
    assert(head + tail =~= digits);
    bytes::first_bytes_count_most(head, tail);
    let p = bytes::pow256(tail.len());
    assert(digits[0] < 64) by {
        assert(v < 64 * p);
        assert(digits[0] * p <= v);
        assert(digits[0] < 64) by (nonlinear_arith)
            requires
                digits[0] * p <= v,
                v < 64 * p,
        ;
    }
    let first = number(v, n)[0];
    assert(s[off] == first);
    assert(first % 64 == digits[0]);
    assert(quic::varint_digits(s, off, n as int) =~= digits);
    if 0 <= cut < n {
        let short = before + number(v, n).take(cut);
        if cut > 0 {
            assert(short[off] == first);
        }
    }
}

// ---------------------------------------------------------------------------
// Headers
// ---------------------------------------------------------------------------

/// The header of an Initial packet up to the packet number, as it is sent: the
/// first byte, the version, the two connection ids behind their lengths, the token
/// behind its length, and the length of the rest.
pub open spec fn header(
    first: u8,
    version: u32,
    dcid: Seq<u8>,
    scid: Seq<u8>,
    token: Seq<u8>,
    token_n: nat,
    len: nat,
    len_n: nat,
) -> Seq<u8> {
    seq![first] + bytes::four(version as int) + seq![dcid.len() as u8] + dcid
        + seq![scid.len() as u8] + scid + number(token.len(), token_n) + token + number(len, len_n)
}

/// The first byte says that a packet with a long header is an Initial packet of
/// its version.
pub open spec fn is_initial(first: u8, version: u32) -> bool {
    ||| version == 1 && 0xc0 <= first <= 0xcf
    ||| version == 0xff00_001d && 0xc0 <= first <= 0xcf
    ||| version == 0x6b33_43cf && 0xd0 <= first <= 0xdf
}

/// The parts of a header have lengths that can be written.
pub open spec fn can_be_written(
    dcid: Seq<u8>,
    scid: Seq<u8>,
    token: Seq<u8>,
    token_n: nat,
    len: nat,
    len_n: nat,
) -> bool {
    &&& dcid.len() <= 20
    &&& scid.len() <= 20
    &&& fits(token.len(), token_n)
    &&& fits(len, len_n)
    &&& len > 0
}

proof fn lemma_dest(before: Seq<u8>, first: u8, version: u32, dcid: Seq<u8>, tail: Seq<u8>)
    requires
        is_initial(first, version),
        dcid.len() <= 20,
    ensures
        ({
            let d = before + (seq![first] + bytes::four(version as int) + seq![dcid.len() as u8] + dcid)
                + tail;
            let start = before.len() as int;
            quic::initial_dest(d, start) == Ok::<_, UdpSniffError>(
                (version, dcid, start + 6 + dcid.len()),
            )
        }),
{
    let start = before.len() as int;
    let dest = seq![first] + bytes::four(version as int) + seq![dcid.len() as u8] + dcid;
    let d = before + dest + tail;
    assert(d[start] == dest[0]);
    assert(d[start + 5] == dest[5]);
    assert(d.subrange(start + 1, start + 5) =~= bytes::four(version as int));
    bytes::four_bytes_denote(version as int);
    assert(d.subrange(start + 6, start + 6 + dcid.len()) =~= dcid);
}

proof fn lemma_payload(
    front: Seq<u8>,
    scid: Seq<u8>,
    token: Seq<u8>,
    token_n: nat,
    rest: Seq<u8>,
    len_n: nat,
    behind: Seq<u8>,
)
    requires
        scid.len() <= 20,
        fits(token.len(), token_n),
        fits(rest.len(), len_n),
        rest.len() > 0,
    ensures
        ({
            let part = seq![scid.len() as u8] + scid + number(token.len(), token_n) + token + number(
                rest.len(),
                len_n,
            );
            let off = front.len() as int;
            quic::initial_payload(front + part + (rest + behind), off) == Ok::<_, UdpSniffError>(
                (off + part.len(), off + part.len() + rest.len()),
            )
        }),
{
    let off = front.len() as int;
    let f = seq![scid.len() as u8];
    let t = number(token.len(), token_n);
    let l = number(rest.len(), len_n);
    let part = f + scid + t + token + l;
    let d = front + part + (rest + behind);
    assert(d[off] == part[0]);
    let g = front + f + scid;
    let after_t = token + l + (rest + behind);
    assert(d =~= g + t + after_t);
    numbers_are_read_back(g, token.len(), token_n, after_t, 0);
    let j = g + t + token;
    assert(d =~= j + l + (rest + behind));
    numbers_are_read_back(j, rest.len(), len_n, rest + behind, 0);
    assert(g.len() == off + 1 + scid.len());
}

/// The header of an Initial packet is read back, wherever the packet stands in its
/// datagram: the version, the destination id, where the packet number is and where
/// the packet ends. The source id and the token are passed over by their lengths.
#[verifier::spinoff_prover]
#[verifier::rlimit(60)]
pub proof fn headers_are_read_back(
    before: Seq<u8>,
    first: u8,
    version: u32,
    dcid: Seq<u8>,
    scid: Seq<u8>,
    token: Seq<u8>,
    token_n: nat,
    rest: Seq<u8>,
    len_n: nat,
    behind: Seq<u8>,
)
    requires
        is_initial(first, version),
        can_be_written(dcid, scid, token, token_n, rest.len(), len_n),
    ensures
        ({
            let h = header(first, version, dcid, scid, token, token_n, rest.len(), len_n);
            let d = before + h + (rest + behind);
            let start = before.len() as int;
            let dest_end = start + 6 + dcid.len();
            &&& quic::initial_dest(d, start) == Ok::<_, UdpSniffError>((version, dcid, dest_end))
            &&& quic::initial_payload(d, dest_end) == Ok::<_, UdpSniffError>(
                (start + h.len(), start + h.len() + rest.len()),
            )
        }),
{
    let h = header(first, version, dcid, scid, token, token_n, rest.len(), len_n);
    let d = before + h + (rest + behind);
    let dest = seq![first] + bytes::four(version as int) + seq![dcid.len() as u8] + dcid;
    let part = seq![scid.len() as u8] + scid + number(token.len(), token_n) + token + number(
        rest.len(),
        len_n,
    );
    assert(h =~= dest + part);
    lemma_dest(before, first, version, dcid, part + (rest + behind));
    assert(d =~= before + dest + (part + (rest + behind)));
    lemma_payload(before + dest, scid, token, token_n, rest, len_n, behind);
    assert(d =~= (before + dest) + part + (rest + behind));
}

/// A packet of a version that is not understood, or that is no Initial packet, is
/// refused.
pub proof fn other_packets_are_refused(first: u8, version: u32, rest: Seq<u8>)
    requires
        !is_initial(first, version),
    ensures
        quic::initial_dest(seq![first] + bytes::four(version as int) + rest, 0) == Err::<
            (u32, Seq<u8>, int),
            _,
        >(UdpSniffError::ProtocolNotMatched),
{
    let d = seq![first] + bytes::four(version as int) + rest;
    assert(d.subrange(1, 5) =~= bytes::four(version as int));
    bytes::four_bytes_denote(version as int);
}

// ---------------------------------------------------------------------------
// Frames
// ---------------------------------------------------------------------------

/// A frame of an Initial packet. Numbers come with the bytes they are written in.
pub enum Frame {
    Padding,
    Ping,
    /// The numbers of the frame; with counts for congestion if `ecn`.
    Ack { ecn: bool, numbers: Seq<(nat, nat)> },
    /// Handshake bytes and where they belong.
    Crypto { offset: nat, offset_n: nat, data: Seq<u8>, len_n: nat },
    Close { code: (nat, nat), frame_type: (nat, nat), reason: Seq<u8>, len_n: nat },
}

/// Numbers one behind the other.
pub open spec fn numbers(list: Seq<(nat, nat)>) -> Seq<u8>
    decreases list.len(),
{
    if list.len() == 0 {
        Seq::empty()
    } else {
        number(list[0].0, list[0].1) + numbers(list.drop_first())
    }
}

/// A frame as it is sent.
pub open spec fn frame(f: Frame) -> Seq<u8> {
    match f {
        Frame::Padding => seq![0u8],
        Frame::Ping => seq![1u8],
        Frame::Ack { ecn, numbers: list } => seq![if ecn {
            3u8
        } else {
            2u8
        }] + numbers(list),
        Frame::Crypto { offset, offset_n, data, len_n } => seq![6u8] + number(offset, offset_n)
            + number(data.len(), len_n) + data,
        Frame::Close { code, frame_type, reason, len_n } => seq![0x1cu8] + number(code.0, code.1)
            + number(frame_type.0, frame_type.1) + number(reason.len(), len_n) + reason,
    }
}

/// A frame can be written and is whole: an ACK frame has two numbers for each range
/// that it counts, besides the first four, and three more with congestion counts.
pub open spec fn is_frame(f: Frame) -> bool {
    match f {
        Frame::Padding => true,
        Frame::Ping => true,
        Frame::Ack { ecn, numbers: list } => {
            &&& list.len() >= 4
            &&& list.len() == 4 + 2 * list[2].0 + (if ecn {
                3nat
            } else {
                0nat
            })
            &&& forall|i: int| 0 <= i < list.len() ==> fits((#[trigger] list[i]).0, list[i].1)
        },
        Frame::Crypto { offset, offset_n, data, len_n } => fits(offset, offset_n) && fits(
            data.len(),
            len_n,
        ) && offset + data.len() <= 32768,
        Frame::Close { code, frame_type, reason, len_n } => fits(code.0, code.1) && fits(
            frame_type.0,
            frame_type.1,
        ) && fits(reason.len(), len_n),
    }
}

/// What a frame brings to the handshake.
pub open spec fn brought(f: Frame, s: CryptoStream) -> CryptoStream {
    match f {
        Frame::Crypto { offset, data, .. } => s.with(offset as int, data),
        _ => s,
    }
}

proof fn lemma_numbers(before: Seq<u8>, list: Seq<(nat, nat)>, behind: Seq<u8>, n: nat)
    requires
        n <= list.len(),
        forall|i: int| 0 <= i < list.len() ==> fits((#[trigger] list[i]).0, list[i].1),
    ensures
        quic::after_varints(before + numbers(list) + behind, before.len() as int, n) == (
            (before.len() + numbers(list.take(n as int)).len()) as int,
            true,
        ),
        n < list.len() ==> quic::varint_at(
            before + numbers(list) + behind,
            (before.len() + numbers(list.take(n as int)).len()) as int,
        ) == Some(
            (
                list[n as int].0 as int,
                (before.len() + numbers(list.take(n as int + 1)).len()) as int,
            ),
        ),
    decreases list.len(),
{
    let d = before + numbers(list) + behind;
    if list.len() == 0 {
        assert(list.take(0) =~= list);
    } else {
        let rest = list.drop_first();
        let x = number(list[0].0, list[0].1);
        let tail = numbers(rest) + behind;
        assert(d =~= before + x + tail);
        numbers_are_read_back(before, list[0].0, list[0].1, tail, 0);
        assert(d =~= (before + x) + numbers(rest) + behind);
        assert forall|i: int| 0 <= i < rest.len() implies fits((#[trigger] rest[i]).0, rest[i].1) by {
            assert(rest[i] == list[i + 1]);
        }
        let one = list.take(1);
        assert(one.drop_first() =~= Seq::<(nat, nat)>::empty());
        assert(numbers(one.drop_first()) =~= Seq::<u8>::empty());
        assert(numbers(one) =~= x + Seq::<u8>::empty());
        if n == 0 {
            assert(list.take(0) =~= Seq::<(nat, nat)>::empty());
        } else {
            lemma_numbers(before + x, rest, behind, (n - 1) as nat);
            let m = n as int;
            assert(list.take(m).drop_first() =~= rest.take(m - 1));
            assert(list.take(m)[0] == list[0]);
            assert(numbers(list.take(m)) == x + numbers(rest.take(m - 1)));
            if n < list.len() {
                assert(list.take(m + 1).drop_first() =~= rest.take(m));
                assert(list.take(m + 1)[0] == list[0]);
                assert(numbers(list.take(m + 1)) == x + numbers(rest.take(m)));
                assert(rest[m - 1] == list[m]);
            }
        }
    }
}

proof fn lemma_all_numbers(before: Seq<u8>, list: Seq<(nat, nat)>, behind: Seq<u8>, m: nat)
    requires
        m <= list.len(),
        forall|i: int| 0 <= i < list.len() ==> fits((#[trigger] list[i]).0, list[i].1),
    ensures
        ({
            let d = before + numbers(list) + behind;
            let at = (before.len() + numbers(list.take(m as int)).len()) as int;
            quic::after_varints(d, at, (list.len() - m) as nat) == (
                (before.len() + numbers(list).len()) as int,
                true,
            )
        }),
    decreases m,
{
    if m == 0 {
        lemma_numbers(before, list, behind, list.len());
        assert(list.take(0) =~= Seq::<(nat, nat)>::empty());
        assert(list.take(list.len() as int) =~= list);
    } else {
        lemma_all_numbers(before, list, behind, (m - 1) as nat);
        lemma_numbers(before, list, behind, (m - 1) as nat);
    }
}

proof fn lemma_type(before: Seq<u8>, ty: u8, rest: Seq<u8>)
    requires
        ty < 64,
    ensures
        quic::varint_at(before + (seq![ty] + rest), before.len() as int) == Some(
            (ty as int, before.len() as int + 1),
        ),
{
    let one = number(ty as nat, 1);
    assert(bytes::be_bytes(ty as nat, 1) =~= seq![ty]) by {
        assert(bytes::be_bytes(ty as nat / 256, 0) =~= Seq::<u8>::empty());
    }
    assert(one =~= seq![ty]);
    numbers_are_read_back(before, ty as nat, 1, rest, 0);
    assert(before + (seq![ty] + rest) =~= before + one + rest);
}

proof fn lemma_ack(before: Seq<u8>, ecn: bool, list: Seq<(nat, nat)>, behind: Seq<u8>)
    requires
        is_frame(Frame::Ack { ecn, numbers: list }),
    ensures
        quic::after_ack(
            if ecn {
                3
            } else {
                2
            },
            before + numbers(list) + behind,
            before.len() as int,
        ) == ((before.len() + numbers(list).len()) as int, true),
{
    lemma_numbers(before, list, behind, 2);
    lemma_all_numbers(before, list, behind, 3);
}

proof fn lemma_close(
    before: Seq<u8>,
    code: (nat, nat),
    frame_type: (nat, nat),
    reason: Seq<u8>,
    len_n: nat,
    behind: Seq<u8>,
)
    requires
        is_frame(Frame::Close { code, frame_type, reason, len_n }),
    ensures
        ({
            let f = number(code.0, code.1) + number(frame_type.0, frame_type.1) + number(
                reason.len(),
                len_n,
            ) + reason;
            quic::after_close(before + f + behind, before.len() as int) == (
                (before.len() + f.len()) as int,
                true,
            )
        }),
{
    let list = seq![code, frame_type, (reason.len(), len_n)];
    let f = number(code.0, code.1) + number(frame_type.0, frame_type.1) + number(
        reason.len(),
        len_n,
    ) + reason;
    reveal_with_fuel(numbers, 4);
    assert(list.drop_first() =~= seq![frame_type, (reason.len(), len_n)]);
    assert(list.drop_first().drop_first() =~= seq![(reason.len(), len_n)]);
    assert(list.drop_first().drop_first().drop_first() =~= Seq::<(nat, nat)>::empty());
    assert(numbers(list) + reason =~= f);
    assert(before + f + behind =~= before + numbers(list) + (reason + behind));
    lemma_numbers(before, list, reason + behind, 2);
    assert(list.take(3) =~= list);
}

proof fn lemma_crypto(
    before: Seq<u8>,
    offset: nat,
    offset_n: nat,
    data: Seq<u8>,
    len_n: nat,
    behind: Seq<u8>,
    s: CryptoStream,
)
    requires
        fits(offset, offset_n),
        fits(data.len(), len_n),
    ensures
        ({
            let f = number(offset, offset_n) + number(data.len(), len_n) + data;
            let d = before + f + behind;
            quic::run_crypto_frame(d, before.len() as int, s) == if offset + data.len() <= 32768 {
                quic::run_frames(d, (before.len() + f.len()) as int, s.with(offset as int, data))
            } else {
                (s, Err(UdpSniffError::TooLarge))
            }
        }),
{
    let o = number(offset, offset_n);
    let l = number(data.len(), len_n);
    let f = o + l + data;
    let d = before + f + behind;
    assert(d =~= before + o + (l + data + behind));
    numbers_are_read_back(before, offset, offset_n, l + data + behind, 0);
    assert(d =~= (before + o) + l + (data + behind));
    numbers_are_read_back(before + o, data.len(), len_n, data + behind, 0);
    let at = (before + o + l).len() as int;
    assert(d.subrange(at, at + data.len()) =~= data);
}

/// A frame is read back wherever it stands: handshake bytes arrive where they
/// belong, and frames of other kinds are passed over as a whole.
pub proof fn frames_are_read_back(before: Seq<u8>, f: Frame, behind: Seq<u8>, s: CryptoStream)
    requires
        is_frame(f),
    ensures
        quic::run_frames(before + frame(f) + behind, before.len() as int, s) == quic::run_frames(
            before + frame(f) + behind,
            (before.len() + frame(f).len()) as int,
            brought(f, s),
        ),
{
    let d = before + frame(f) + behind;
    let ty = frame(f)[0];
    let rest = frame(f).skip(1);
    assert(frame(f) =~= seq![ty] + rest);
    assert(d =~= before + (seq![ty] + (rest + behind)));
    lemma_type(before, ty, rest + behind);
    let next = before + seq![ty];
    assert(d =~= next + rest + behind);
    match f {
        Frame::Padding => {},
        Frame::Ping => {},
        Frame::Ack { ecn, numbers: list } => {
            assert(rest =~= numbers(list));
            lemma_ack(next, ecn, list, behind);
        },
        Frame::Crypto { offset, offset_n, data, len_n } => {
            assert(rest =~= number(offset, offset_n) + number(data.len(), len_n) + data);
            lemma_crypto(next, offset, offset_n, data, len_n, behind, s);
        },
        Frame::Close { code, frame_type, reason, len_n } => {
            assert(rest =~= number(code.0, code.1) + number(frame_type.0, frame_type.1) + number(
                reason.len(),
                len_n,
            ) + reason);
            lemma_close(next, code, frame_type, reason, len_n, behind);
        },
    }
}

/// Frames as they are sent, one behind the other.
pub open spec fn all_frames(list: Seq<Frame>) -> Seq<u8>
    decreases list.len(),
{
    if list.len() == 0 {
        Seq::empty()
    } else {
        frame(list[0]) + all_frames(list.drop_first())
    }
}

/// What frames bring to the handshake, one after the other.
pub open spec fn all_brought(list: Seq<Frame>, s: CryptoStream) -> CryptoStream
    decreases list.len(),
{
    if list.len() == 0 {
        s
    } else {
        all_brought(list.drop_first(), brought(list[0], s))
    }
}

proof fn lemma_all_frames(before: Seq<u8>, list: Seq<Frame>, s: CryptoStream)
    requires
        forall|i: int| 0 <= i < list.len() ==> is_frame(#[trigger] list[i]),
    ensures
        quic::run_frames(before + all_frames(list), before.len() as int, s) == (
            all_brought(list, s),
            Ok::<(), UdpSniffError>(()),
        ),
    decreases list.len(),
{
    if list.len() > 0 {
        let rest = list.drop_first();
        let f = frame(list[0]);
        frames_are_read_back(before, list[0], all_frames(rest), s);
        assert(before + all_frames(list) =~= before + f + all_frames(rest));
        assert forall|i: int| 0 <= i < rest.len() implies is_frame(#[trigger] rest[i]) by {
            assert(rest[i] == list[i + 1]);
        }
        lemma_all_frames(before + f, rest, brought(list[0], s));
    } else {
        assert(before + all_frames(list) =~= before);
    }
}

/// The payload of an Initial packet is read back, whatever frames it holds.
pub proof fn payloads_are_read_back(list: Seq<Frame>, s: CryptoStream)
    requires
        forall|i: int| 0 <= i < list.len() ==> is_frame(#[trigger] list[i]),
    ensures
        quic::run_frames(all_frames(list), 0, s) == (
            all_brought(list, s),
            Ok::<(), UdpSniffError>(()),
        ),
{
    lemma_all_frames(Seq::empty(), list, s);
    assert(Seq::<u8>::empty() + all_frames(list) =~= all_frames(list));
}

/// A frame that does not belong in an Initial packet is refused, and handshake bytes
/// beyond the limit are too many.
pub proof fn other_frames_are_refused(
    ty: u8,
    rest: Seq<u8>,
    offset: nat,
    offset_n: nat,
    data: Seq<u8>,
    len_n: nat,
    s: CryptoStream,
)
    requires
        ty < 64,
        ty != 0 && ty != 1 && ty != 2 && ty != 3 && ty != 6 && ty != 28,
        fits(offset, offset_n),
        fits(data.len(), len_n),
        offset + data.len() > 32768,
    ensures
        quic::run_frames(seq![ty] + rest, 0, s) == (
            s,
            Err::<(), _>(UdpSniffError::ProtocolNotMatched),
        ),
        quic::run_frames(
            frame(Frame::Crypto { offset, offset_n, data, len_n }) + rest,
            0,
            s,
        ) == (s, Err::<(), _>(UdpSniffError::TooLarge)),
{
    let none = Seq::<u8>::empty();
    lemma_type(none, ty, rest);
    assert(none + (seq![ty] + rest) =~= seq![ty] + rest);
    let f = number(offset, offset_n) + number(data.len(), len_n) + data;
    let d = frame(Frame::Crypto { offset, offset_n, data, len_n }) + rest;
    lemma_type(none, 6, f + rest);
    assert(none + (seq![6u8] + (f + rest)) =~= d);
    lemma_crypto(seq![6u8], offset, offset_n, data, len_n, rest, s);
    assert(seq![6u8] + f + rest =~= d);
}

// ---------------------------------------------------------------------------
// Sealed packets
// ---------------------------------------------------------------------------

/// The sample of a sealed payload behind a packet number of `n` bytes: 16 bytes,
/// from where the payload would start behind a packet number of four.
pub open spec fn sample(sealed: Seq<u8>, n: nat) -> Seq<u8> {
    sealed.subrange(4 - n, 20 - n)
}

/// The first byte as it is sent: its four low bits are masked.
pub open spec fn masked_first(first: u8, mask: Seq<u8>) -> u8 {
    first ^ (mask[0] & 0x0f)
}

/// The packet number as it is sent, under the mask from its second byte on.
pub open spec fn masked_number(pn: Seq<u8>, mask: Seq<u8>) -> Seq<u8> {
    Seq::new(pn.len(), |i: int| pn[i] ^ mask[1 + i])
}

/// The nonce for a packet number: the IV, with the number over its end.
pub open spec fn nonce(iv: Seq<u8>, pn: Seq<u8>) -> Seq<u8> {
    Seq::new(
        12,
        |i: int|
            if i < 12 - pn.len() {
                iv[i]
            } else {
                iv[i] ^ pn[i - (12 - pn.len())]
            },
    )
}

proof fn lemma_masks(a: u8, m: u8)
    ensures
        (a ^ m) ^ m == a,
        (a ^ (m & 0x0f)) ^ (m & 0x0f) == a,
        (a ^ (m & 0x0f)) / 16 == a / 16,
        a & 0x03 == a % 4,
        a ^ 0 == a,
{
    assert((a ^ m) ^ m == a) by (bit_vector);
    assert((a ^ (m & 0x0f)) ^ (m & 0x0f) == a) by (bit_vector);
    assert((a ^ (m & 0x0f)) / 16 == a / 16) by (bit_vector);
    assert(a & 0x03 == a % 4) by (bit_vector);
    assert(a ^ 0 == a) by (bit_vector);
}

proof fn lemma_zeros(k: nat)
    ensures
        bytes::be_bytes(0, k) == Seq::new(k, |i: int| 0u8),
    decreases k,
{
    if k > 0 {
        lemma_zeros((k - 1) as nat);
        assert(bytes::be_bytes(0, k) =~= Seq::new(k, |i: int| 0u8));
    } else {
        assert(bytes::be_bytes(0, k) =~= Seq::new(k, |i: int| 0u8));
    }
}

proof fn lemma_padded(s: Seq<u8>, k: nat)
    ensures
        bytes::be_bytes(bytes::be_value(s), k + s.len()) == Seq::new(k, |i: int| 0u8) + s,
    decreases s.len(),
{
    let zeros = Seq::new(k, |i: int| 0u8);
    if s.len() == 0 {
        lemma_zeros(k);
        assert(zeros + s =~= zeros);
    } else {
        let front = s.drop_last();
        lemma_padded(front, k);
        let v = bytes::be_value(front);
        assert(bytes::be_value(s) == v * 256 + s.last());
        assert((v * 256 + s.last() as nat) / 256 == v);
        assert((v * 256 + s.last() as nat) % 256 == s.last());
        assert(bytes::be_bytes(bytes::be_value(s), k + s.len()) =~= zeros + s);
    }
}

proof fn lemma_nonce(iv: Seq<u8>, pn: Seq<u8>)
    requires
        1 <= pn.len() <= 4,
    ensures
        quic::nonce_of(iv, bytes::be_value(pn)) == nonce(iv, pn),
{
    let k = (8 - pn.len()) as nat;
    lemma_padded(pn, k);
    let digits = bytes::be_bytes(bytes::be_value(pn), 8);
    assert(digits == Seq::new(k, |i: int| 0u8) + pn);
    assert forall|i: int| 0 <= i < 12 implies quic::nonce_of(iv, bytes::be_value(pn))[i] == nonce(
        iv,
        pn,
    )[i] by {
        lemma_masks(iv[i], 0);
    }
    assert(quic::nonce_of(iv, bytes::be_value(pn)) =~= nonce(iv, pn));
}

/// A sealed packet is opened, wherever it stands: the mask is made of the sample,
/// it uncovers the first byte and the packet number, and the payload is opened with
/// the nonce of that number and with the header as it was before it was masked.
#[verifier::spinoff_prover]
#[verifier::rlimit(50)]
pub proof fn sealed_packets_are_opened(
    before: Seq<u8>,
    first: u8,
    middle: Seq<u8>,
    pn: Seq<u8>,
    sealed: Seq<u8>,
    behind: Seq<u8>,
    keys: InitialKeys,
)
    requires
        1 <= pn.len() <= 4,
        first % 4 == pn.len() - 1,
        pn.len() + sealed.len() >= 20,
    ensures
        ({
            let mask = quic_crypto::aes128_block(keys.hp_key, sample(sealed, pn.len()));
            let d = before + (seq![masked_first(first, mask)] + middle) + (masked_number(pn, mask)
                + sealed) + behind;
            let pn_offset = before.len() + 1 + middle.len();
            quic::open_packet(
                d,
                before.len() as int,
                pn_offset as int,
                (pn_offset + pn.len() + sealed.len()) as int,
                keys,
            ) == match quic_crypto::aes128_gcm_plaintext(
                keys.key,
                nonce(keys.iv, pn),
                seq![first] + middle + pn,
                sealed,
            ) {
                Some(plain) => Ok(plain),
                None => Err(UdpSniffError::ProtocolNotMatched),
            }
        }),
{
    let mask = quic_crypto::aes128_block(keys.hp_key, sample(sealed, pn.len()));
    let start = before.len() as int;
    let at = (before.len() + 1 + middle.len()) as int;
    let end = (at + pn.len() + sealed.len()) as int;
    let head = seq![masked_first(first, mask)] + middle;
    let hidden = masked_number(pn, mask);
    let d = before + head + (hidden + sealed) + behind;
    assert(d.subrange(at + 4, at + 20) =~= sample(sealed, pn.len()));
    assert(quic::header_mask(d, at, keys) == mask);
    assert(d[start] == head[0]);
    lemma_masks(first, mask[0]);
    assert(quic::plain_first(d, start, mask) == first);
    assert(quic::packet_number_len(d, start, mask) == pn.len());
    let plain = quic::plain_packet_number(d, start, at, mask);
    assert forall|i: int| 0 <= i < pn.len() implies plain[i] == pn[i] by {
        assert(d[at + i] == hidden[i]);
        lemma_masks(pn[i], mask[1 + i]);
    }
    assert(plain =~= pn);
    assert(d.subrange(start + 1, at) =~= middle);
    assert(quic::plain_header(d, start, at, mask) =~= seq![first] + middle + pn);
    assert(d.subrange(at + pn.len(), end) =~= sealed);
    lemma_nonce(keys.iv, pn);
}

/// An Initial packet as it is sent, under the keys of its version and destination.
pub open spec fn packet(
    first: u8,
    version: u32,
    dcid: Seq<u8>,
    scid: Seq<u8>,
    token: Seq<u8>,
    token_n: nat,
    len_n: nat,
    pn: Seq<u8>,
    sealed: Seq<u8>,
    keys: InitialKeys,
) -> Seq<u8> {
    let mask = quic_crypto::aes128_block(keys.hp_key, sample(sealed, pn.len()));
    header(
        masked_first(first, mask),
        version,
        dcid,
        scid,
        token,
        token_n,
        pn.len() + sealed.len(),
        len_n,
    ) + (masked_number(pn, mask) + sealed)
}

proof fn lemma_masked_is_initial(first: u8, version: u32, mask: Seq<u8>)
    requires
        is_initial(first, version),
    ensures
        is_initial(masked_first(first, mask), version),
{
    lemma_masks(first, mask[0]);
}

/// A sealed Initial packet brings the frames that were sealed in it, wherever it
/// stands in its datagram, and ends behind its sealed payload.
#[verifier::spinoff_prover]
#[verifier::rlimit(50)]
pub proof fn packets_bring_their_frames(
    before: Seq<u8>,
    first: u8,
    version: u32,
    dcid: Seq<u8>,
    scid: Seq<u8>,
    token: Seq<u8>,
    token_n: nat,
    len_n: nat,
    pn: Seq<u8>,
    sealed: Seq<u8>,
    behind: Seq<u8>,
    list: Seq<Frame>,
    s: CryptoStream,
)
    requires
        is_initial(first, version),
        can_be_written(dcid, scid, token, token_n, pn.len() + sealed.len(), len_n),
        1 <= pn.len() <= 4,
        first % 4 == pn.len() - 1,
        pn.len() + sealed.len() >= 20,
        forall|i: int| 0 <= i < list.len() ==> is_frame(#[trigger] list[i]),
        ({
            let keys = quic::initial_keys(quic::initial_salt(version)->0, dcid);
            quic_crypto::aes128_gcm_plaintext(
                keys.key,
                nonce(keys.iv, pn),
                header(first, version, dcid, scid, token, token_n, pn.len() + sealed.len(), len_n)
                    + pn,
                sealed,
            ) == Some(all_frames(list))
        }),
    ensures
        ({
            let keys = quic::initial_keys(quic::initial_salt(version)->0, dcid);
            let p = packet(first, version, dcid, scid, token, token_n, len_n, pn, sealed, keys);
            quic::run_packet(before + p + behind, before.len() as int, s) == (
                all_brought(list, s.adopting(dcid)),
                Ok::<_, UdpSniffError>((before.len() + p.len()) as int),
            )
        }),
{
    let keys = quic::initial_keys(quic::initial_salt(version)->0, dcid);
    let mask = quic_crypto::aes128_block(keys.hp_key, sample(sealed, pn.len()));
    let len = pn.len() + sealed.len();
    let p = packet(first, version, dcid, scid, token, token_n, len_n, pn, sealed, keys);
    let masked = masked_first(first, mask);
    let h = header(masked, version, dcid, scid, token, token_n, len, len_n);
    let bare = header(first, version, dcid, scid, token, token_n, len, len_n);
    let middle = bare.skip(1);
    let rest = masked_number(pn, mask) + sealed;
    let d = before + p + behind;
    assert(h =~= seq![masked] + middle);
    assert(bare =~= seq![first] + middle);
    lemma_masked_is_initial(first, version, mask);
    headers_are_read_back(
        before,
        masked,
        version,
        dcid,
        scid,
        token,
        token_n,
        rest,
        len_n,
        behind,
    );
    assert(d =~= before + h + (rest + behind));
    sealed_packets_are_opened(before, first, middle, pn, sealed, behind, keys);
    assert(d =~= before + (seq![masked] + middle) + rest + behind);
    payloads_are_read_back(list, s.adopting(dcid));
}

/// What arrived for a connection is kept for its next packet; a packet to another
/// connection id starts over.
pub proof fn connections_are_kept_apart(s: CryptoStream, dcid: Seq<u8>)
    ensures
        s.adopting(dcid).last_dcid == Some(dcid),
        s.last_dcid is None ==> s.adopting(dcid).received == s.received,
        s.last_dcid == Some(dcid) ==> s.adopting(dcid).received == s.received,
        s.last_dcid is Some && s.last_dcid != Some(dcid) ==> s.adopting(dcid).received
            == Map::<int, u8>::empty(),
{
}

// ---------------------------------------------------------------------------
// Handshakes
// ---------------------------------------------------------------------------

proof fn lemma_three(n: int)
    requires
        0 <= n < 0x100_0000,
    ensures
        bytes::three(n)[0] * 65536 + bytes::three(n)[1] * 256 + bytes::three(n)[2] == n,
        bytes::three(n).len() == 3,
{
}

proof fn lemma_message(kind: u8, body: Seq<u8>, more: Seq<u8>)
    ensures
        ({
            let m = tls::written_message(kind, body) + more;
            let len = bytes::three(body.len() as int);
            &&& m.len() == 4 + body.len() + more.len()
            &&& m[0] == kind && m[1] == len[0] && m[2] == len[1] && m[3] == len[2]
        }),
{
}

/// A ClientHello gives its server name once it has arrived whole, whatever follows
/// it, and asks for more before that. Another message is refused by its first byte,
/// and one of more than 32768 bytes by its length.
#[verifier::spinoff_prover]
#[verifier::rlimit(40)]
pub proof fn hello_in_a_handshake_is_read(kind: u8, body: Seq<u8>, more: Seq<u8>, cut: int)
    requires
        body.len() < 0x100_0000,
    ensures
        body.len() + 4 <= 32768 ==> quic::sni_of_handshake(tls::written_message(1, body) + more)
            == match tls_common::sni_of_client_hello(body) {
            Ok(host) => Ok(host),
            Err(e) => Err(quic::udp_error_of(e)),
        },
        body.len() + 4 <= 32768 && 0 <= cut < body.len() + 4 ==> quic::sni_of_handshake(
            tls::written_message(1, body).take(cut),
        ) == Err::<Seq<char>, _>(UdpSniffError::InsufficientPrefix),
        body.len() + 4 > 32768 && 4 <= cut <= body.len() + 4 ==> quic::sni_of_handshake(
            tls::written_message(1, body).take(cut),
        ) == Err::<Seq<char>, _>(UdpSniffError::TooLarge),
        kind != 1 ==> quic::sni_of_handshake(tls::written_message(kind, body) + more) == Err::<Seq<char>, _>(
            UdpSniffError::ProtocolNotMatched,
        ),
{
    let len = body.len() as int;
    lemma_three(len);
    let m = tls::written_message(1, body) + more;
    lemma_message(1, body, more);
    lemma_message(kind, body, more);
    assert(m.subrange(4, 4 + len) =~= body);
    if 4 <= cut <= len + 4 {
        lemma_message(1, body, Seq::empty());
        let t = tls::written_message(1, body).take(cut);
        assert(tls::written_message(1, body) + Seq::<u8>::empty() =~= tls::written_message(1, body));
        assert(t[0] == 1 && t[1] == bytes::three(len)[0] && t[2] == bytes::three(len)[1] && t[3]
            == bytes::three(len)[2]);
    }
}

/// A ClientHello that a packet completes is read from the datagram of that packet,
/// whatever packets stand behind it.
pub proof fn datagram_that_completes_a_hello_gives_the_name(
    d: Seq<u8>,
    s: CryptoStream,
    after: CryptoStream,
    end: int,
    body: Seq<u8>,
    more: Seq<u8>,
    host: Seq<char>,
)
    requires
        0 < d.len() <= 16384,
        d[0] >= 0xc0,
        quic::run_packet(d, 0, s) == (after, Ok::<_, UdpSniffError>(end)),
        body.len() + 4 <= 32768,
        quic::contiguous_of(after.received) == tls::written_message(1, body) + more,
        tls_common::sni_of_client_hello(body) == Ok::<_, tls_common::TlsSniffError>(host),
    ensures
        quic::run_datagram(d, s) == (after, Ok::<_, UdpSniffError>(host)),
{
    hello_in_a_handshake_is_read(1, body, more, 0);
}

/// A datagram whose packet leaves the ClientHello incomplete keeps what it brought,
/// and asks for another.
pub proof fn datagram_of_a_part_asks_for_another(
    d: Seq<u8>,
    s: CryptoStream,
    after: CryptoStream,
    body: Seq<u8>,
    cut: int,
)
    requires
        0 < d.len() <= 16384,
        d[0] >= 0xc0,
        quic::run_packet(d, 0, s) == (after, Ok::<_, UdpSniffError>(d.len() as int)),
        body.len() + 4 <= 32768,
        0 <= cut < body.len() + 4,
        quic::contiguous_of(after.received) == tls::written_message(1, body).take(cut),
    ensures
        quic::run_datagram(d, s) == (after, Err::<Seq<char>, _>(UdpSniffError::InsufficientPrefix)),
{
    hello_in_a_handshake_is_read(1, body, Seq::empty(), cut);
    reveal_with_fuel(quic::run_packets, 2);
}

/// A packet that leaves the ClientHello incomplete hands over to the packet behind
/// it in the same datagram.
pub proof fn packets_of_a_datagram_are_read_in_turn(
    d: Seq<u8>,
    s: CryptoStream,
    after: CryptoStream,
    end: int,
    body: Seq<u8>,
    cut: int,
)
    requires
        0 < end < d.len() <= 16384,
        d[0] >= 0xc0,
        quic::run_packet(d, 0, s) == (after, Ok::<_, UdpSniffError>(end)),
        body.len() + 4 <= 32768,
        0 <= cut < body.len() + 4,
        quic::contiguous_of(after.received) == tls::written_message(1, body).take(cut),
    ensures
        quic::run_packet(d, end, after) matches (last, Ok(next)) ==> {
            &&& quic::sni_of_handshake(quic::contiguous_of(last.received)) matches Ok(host)
                ==> quic::run_datagram(d, s) == (last, Ok::<_, UdpSniffError>(host))
        },
        quic::run_packet(d, end, after) matches (last, Err(UdpSniffError::ProtocolNotMatched))
            ==> quic::run_datagram(d, s) == (
            last,
            Err::<Seq<char>, _>(UdpSniffError::InsufficientPrefix),
        ),
{
    hello_in_a_handshake_is_read(1, body, Seq::empty(), cut);
    reveal_with_fuel(quic::run_packets, 2);
}

// ---------------------------------------------------------------------------
// Keys
// ---------------------------------------------------------------------------

/// The info for a label, byte by byte: the length of the output in two bytes, the
/// length of the label, `tls13 ` and the label, and no context.
pub proof fn labels_on_the_wire(label: Seq<char>, len: nat)
    requires
        is_ascii_chars(label),
        label.len() <= 249,
        len < 65536,
    ensures
        quic::label_info(label, Seq::empty(), len) == bytes::two(len as int) + seq![
            (6 + label.len()) as u8,
            116u8,
            108u8,
            115u8,
            49u8,
            51u8,
            32u8,
        ] + Seq::new(label.len(), |i: int| label[i] as u8) + seq![0u8],
{
    reveal_strlit("tls13 ");
    let front = "tls13 "@;
    assert(is_ascii_chars(front));
    is_ascii_chars_encode_utf8(front);
    is_ascii_chars_encode_utf8(label);
    let bytes_of = Seq::new(label.len(), |i: int| label[i] as u8);
    assert(encode_utf8(label) =~= bytes_of);
    assert(encode_utf8(front) =~= seq![116u8, 108u8, 115u8, 49u8, 51u8, 32u8]) by {
        assert(front[0] as u8 == 116 && front[1] as u8 == 108 && front[2] as u8 == 115);
        assert(front[3] as u8 == 49 && front[4] as u8 == 51 && front[5] as u8 == 32);
    }
    bytes::numbers_are_sent_highest_byte_first(len, 0);
    assert(quic::label_info(label, Seq::empty(), len) =~= bytes::two(len as int) + seq![
        (6 + label.len()) as u8,
        116u8,
        108u8,
        115u8,
        49u8,
        51u8,
        32u8,
    ] + bytes_of + seq![0u8]);
}

/// The keys of a connection come from the salt of its version and the destination id:
/// the secret of the client first, and from that a key to protect headers with, a key
/// and an IV to protect payloads with, of 16, 16 and 12 bytes.
pub proof fn keys_come_from_the_destination(salt: Seq<u8>, dcid: Seq<u8>)
    ensures
        ({
            let prk = quic_crypto::hkdf_prk(salt, dcid);
            let none = Seq::<u8>::empty();
            let secret = quic_crypto::hkdf_okm(prk, quic::label_info("client in"@, none, 32), 32);
            let keys = quic::initial_keys(salt, dcid);
            &&& keys.hp_key == quic_crypto::hkdf_okm(
                secret,
                quic::label_info("quic hp"@, none, 16),
                16,
            )
            &&& keys.key == quic_crypto::hkdf_okm(
                secret,
                quic::label_info("quic key"@, none, 16),
                16,
            )
            &&& keys.iv == quic_crypto::hkdf_okm(
                secret,
                quic::label_info("quic iv"@, none, 12),
                12,
            )
        }),
{
}

/// Three versions are understood, each with a salt of its own.
pub proof fn versions_have_their_salts(version: u32)
    ensures
        quic::initial_salt(version) is Some <==> version == 1 || version == 0x6b33_43cf || version
            == 0xff00_001d,
        quic::initial_salt(version) matches Some(salt) ==> salt.len() == 20,
        version == 1 ==> bytes::be_value(quic::initial_salt(version)->0)
            == 0x38762cf7f55934b34d179ae6a4c80cadccbb7f0anat,
        version == 0x6b33_43cf ==> bytes::be_value(quic::initial_salt(version)->0)
            == 0x0dede3def700a6db819381be6e269dcbf9bd2ed9nat,
        version == 0xff00_001d ==> bytes::be_value(quic::initial_salt(version)->0)
            == 0xafbfec289993d24c9e9786f19c6111e04390a899nat,
{
    lemma_twenty(quic::initial_salt(1)->0);
    lemma_twenty(quic::initial_salt(0x6b33_43cf)->0);
    lemma_twenty(quic::initial_salt(0xff00_001d)->0);
}

proof fn lemma_ten(s: Seq<u8>)
    requires
        s.len() == 10,
    ensures
        bytes::be_value(s) == ((((((((s[0] * 256 + s[1]) * 256 + s[2]) * 256 + s[3]) * 256 + s[4])
            * 256 + s[5]) * 256 + s[6]) * 256 + s[7]) * 256 + s[8]) * 256 + s[9],
{
    let a = s.take(9);
    let b = s.take(8);
    let c = s.take(7);
    let d = s.take(6);
    let e = s.take(5);
    let f = s.take(4);
    let g = s.take(3);
    let h = s.take(2);
    let i = s.take(1);
    assert(s.drop_last() =~= a && a.drop_last() =~= b && b.drop_last() =~= c && c.drop_last() =~= d);
    assert(d.drop_last() =~= e && e.drop_last() =~= f && f.drop_last() =~= g && g.drop_last() =~= h);
    assert(h.drop_last() =~= i && i.drop_last() =~= Seq::<u8>::empty());
    assert(bytes::be_value(i.drop_last()) == 0);
    assert(bytes::be_value(i) == s[0]);
    assert(bytes::be_value(h) == s[0] * 256 + s[1]);
    assert(bytes::be_value(g) == bytes::be_value(h) * 256 + s[2]);
    assert(bytes::be_value(f) == bytes::be_value(g) * 256 + s[3]);
    assert(bytes::be_value(e) == bytes::be_value(f) * 256 + s[4]);
    assert(bytes::be_value(d) == bytes::be_value(e) * 256 + s[5]);
    assert(bytes::be_value(c) == bytes::be_value(d) * 256 + s[6]);
    assert(bytes::be_value(b) == bytes::be_value(c) * 256 + s[7]);
    assert(bytes::be_value(a) == bytes::be_value(b) * 256 + s[8]);
    assert(bytes::be_value(s) == bytes::be_value(a) * 256 + s[9]);
}

proof fn lemma_twenty(s: Seq<u8>)
    requires
        s.len() == 20,
    ensures
        ({
            let x = ((((((((s[0] * 256 + s[1]) * 256 + s[2]) * 256 + s[3]) * 256 + s[4]) * 256
                + s[5]) * 256 + s[6]) * 256 + s[7]) * 256 + s[8]) * 256 + s[9];
            let y = ((((((((s[10] * 256 + s[11]) * 256 + s[12]) * 256 + s[13]) * 256 + s[14]) * 256
                + s[15]) * 256 + s[16]) * 256 + s[17]) * 256 + s[18]) * 256 + s[19];
            bytes::be_value(s) == x * 0x1_0000_0000_0000_0000_0000 + y
        }),
{
    let a = s.take(10);
    let b = s.skip(10);
    assert(a + b =~= s);
    bytes::first_bytes_count_most(a, b);
    lemma_ten(a);
    lemma_ten(b);
    bytes::lemma_pow256_values();
    assert(bytes::pow256(9) == 256 * bytes::pow256(8));
    assert(bytes::pow256(10) == 256 * bytes::pow256(9));
}

// ---------------------------------------------------------------------------
// Streams
// ---------------------------------------------------------------------------

/// Handshake bytes land where they belong, over what was there, and leave the rest as
/// it was. The complete part goes from the first byte up to the first that is missing.
pub proof fn pieces_land_where_they_belong(s: CryptoStream, offset: nat, data: Seq<u8>, i: int)
    ensures
        offset <= i < offset + data.len() ==> s.with(offset as int, data).received.dom().contains(i)
            && s.with(offset as int, data).received[i] == data[i - offset],
        !(offset <= i < offset + data.len()) ==> {
            &&& s.with(offset as int, data).received.dom().contains(i)
                == s.received.dom().contains(i)
            &&& s.received.dom().contains(i) ==> s.with(offset as int, data).received[i]
                == s.received[i]
        },
        s.with(offset as int, data).last_dcid == s.last_dcid,
{
}

/// A message that arrives as one piece from the first byte on is complete, and what
/// arrives beyond a gap does not make it longer.
pub proof fn complete_part_ends_at_the_gap(msg: Seq<u8>, far: nat, data: Seq<u8>)
    requires
        msg.len() < far,
        far + data.len() <= 32768,
    ensures
        quic::contiguous_of(CryptoStream::empty().with(0, msg).received) == msg,
        quic::contiguous_of(
            CryptoStream::empty().with(0, msg).with(far as int, data).received,
        ) == msg,
{
    let one = CryptoStream::empty().with(0, msg).received;
    let two = CryptoStream::empty().with(0, msg).with(far as int, data).received;
    lemma_gap(one, 0, msg.len() as int);
    lemma_gap(two, 0, msg.len() as int);
    assert(quic::contiguous_of(one) =~= msg);
    assert(quic::contiguous_of(two) =~= msg);
}

proof fn lemma_gap(m: Map<int, u8>, from: int, at: int)
    requires
        0 <= from <= at < 32768,
        forall|i: int| from <= i < at ==> m.dom().contains(i),
        !m.dom().contains(at),
    ensures
        quic::first_gap(m, from) == at,
    decreases at - from,
{
    if from < at {
        lemma_gap(m, from + 1, at);
    }
}

/// Of a datagram the first 16384 bytes are looked at, and no more. An empty one asks for
/// another.
pub proof fn long_datagrams_are_cut(d: Seq<u8>, s: CryptoStream)
    ensures
        d.len() > 16384 ==> quic::run_datagram(d, s) == quic::run_datagram(d.take(16384), s),
        quic::run_datagram(Seq::empty(), s) == (
            s,
            Err::<Seq<char>, _>(UdpSniffError::InsufficientPrefix),
        ),
{
    if d.len() > 16384 {
        let cut = d.take(16384);
        assert(cut[0] == d[0]);
        assert(quic::within_cap(cut) =~= quic::within_cap(d));
    }
}

/// A ClientHello that is too short asks for another datagram, and one without a name to
/// read has no target; any other fault keeps its kind.
pub proof fn faults_of_a_hello_keep_their_kind(e: tls_common::TlsSniffError)
    ensures
        quic::udp_error_of(e) == UdpSniffError::InsufficientPrefix <==> e
            == tls_common::TlsSniffError::PeekEmpty || e
            == tls_common::TlsSniffError::InsufficientPrefix,
        quic::udp_error_of(e) == UdpSniffError::ProtocolNotMatched <==> e
            == tls_common::TlsSniffError::ProtocolNotMatched,
        quic::udp_error_of(e) == UdpSniffError::NoTarget <==> e
            == tls_common::TlsSniffError::TlsNoSni,
        quic::udp_error_of(e) == UdpSniffError::InvalidHostname <==> e
            == tls_common::TlsSniffError::InvalidHostname,
        quic::udp_error_of(e) == UdpSniffError::TooLarge <==> e
            == tls_common::TlsSniffError::TooLargeClientHello,
        quic::udp_error_of(e) == UdpSniffError::ParseError <==> e
            == tls_common::TlsSniffError::ParseError,
{
}

} // verus!
