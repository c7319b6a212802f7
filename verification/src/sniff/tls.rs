//! TLS over TCP: the server name in the first records of a connection.

use crate::bytes;
use crate::sniff;
use crate::sniff::tls_common;
use crate::sniff::tls_common::{be_u24, parse_outer_sni_from_client_hello_body, TlsSniffError};
use crate::sniff::{Attempt, SniffAttempt, SniffError, Sniffer, SnifferLimits};
use core::time::Duration;
use vstd::prelude::*;
use vstd::slice::slice_subrange;

verus! {

/// Finds the server name of a TLS connection.
pub struct TlsSniffer {
    limits: SnifferLimits,
}

impl TlsSniffer {
    pub fn new(
        peek_len: usize,
        max_len: usize,
        max_retries: usize,
        wait_more_ms: u64,
        timeout_ms: u64,
    ) -> (r: Self)
        ensures
            r.limits() == sniff::limits_of(
                peek_len,
                max_len,
                max_retries,
                wait_more_ms,
                timeout_ms,
            ),
    {
        TlsSniffer {
            limits: sniff::make_limits(peek_len, max_len, max_retries, wait_more_ms, timeout_ms),
        }
    }
}

/// What the outcome of the parser means to the caller of a sniffer.
pub open spec fn attempt_of(r: Result<Seq<char>, TlsSniffError>) -> Attempt {
    match r {
        Ok(host) => Attempt::Matched(host),
        Err(TlsSniffError::InsufficientPrefix) => Attempt::NeedMore,
        Err(TlsSniffError::PeekEmpty) => Attempt::Abort(SniffError::PeekEmpty),
        Err(TlsSniffError::ProtocolNotMatched) => Attempt::Abort(SniffError::ProtocolNotMatched),
        Err(TlsSniffError::TlsNoSni) => Attempt::Abort(SniffError::NoTarget),
        Err(TlsSniffError::ParseError) => Attempt::Abort(SniffError::ParseError),
        Err(TlsSniffError::InvalidHostname) => Attempt::Abort(SniffError::InvalidHostname),
        Err(TlsSniffError::TooLargeClientHello) => Attempt::Abort(SniffError::TooLarge),
    }
}

impl Sniffer for TlsSniffer {
    open spec fn engine_name(&self) -> Seq<char> {
        "tls"@
    }

    closed spec fn limits(&self) -> SnifferLimits {
        self.limits
    }

    open spec fn attempt(&self, buf: Seq<u8>, max_len: int) -> Attempt {
        attempt_of(sni_of_prefix(buf, max_len))
    }

    open spec fn error_reason(&self, err: SniffError) -> Seq<char> {
        match err {
            SniffError::PeekEmpty => "peek_empty"@,
            SniffError::ProtocolNotMatched => "protocol_not_matched"@,
            SniffError::NoTarget => "tls_no_sni"@,
            SniffError::ParseError => "parse_error"@,
            SniffError::InvalidHostname => "invalid_hostname"@,
            SniffError::TooLarge => "client_hello_too_large"@,
        }
    }

    fn name(&self) -> (r: &'static str) {
        "tls"
    }

    fn initial_peek_len(&self) -> (r: usize) {
        self.limits.peek_len
    }

    fn max_peek_len(&self) -> (r: usize) {
        self.limits.max_len
    }

    fn max_retries(&self) -> (r: usize) {
        self.limits.max_retries
    }

    fn wait_more_duration(&self) -> (r: Duration) {
        Duration::from_millis(self.limits.wait_more_ms)
    }

    fn timeout_duration(&self) -> (r: Duration) {
        Duration::from_millis(self.limits.timeout_ms)
    }

    fn classify(&self, buf: &[u8], max_len: usize) -> (r: SniffAttempt) {
        match sniff_tls_sni_from_prefix(buf, max_len) {
            Ok(host) => SniffAttempt::Matched(host),
            Err(TlsSniffError::InsufficientPrefix) => SniffAttempt::NeedMore,
            Err(TlsSniffError::PeekEmpty) => SniffAttempt::Abort(SniffError::PeekEmpty),
            Err(TlsSniffError::ProtocolNotMatched) => SniffAttempt::Abort(
                SniffError::ProtocolNotMatched,
            ),
            Err(TlsSniffError::TlsNoSni) => SniffAttempt::Abort(SniffError::NoTarget),
            Err(TlsSniffError::ParseError) => SniffAttempt::Abort(SniffError::ParseError),
            Err(TlsSniffError::InvalidHostname) => SniffAttempt::Abort(
                SniffError::InvalidHostname,
            ),
            Err(TlsSniffError::TooLargeClientHello) => SniffAttempt::Abort(SniffError::TooLarge),
        }
    }

    fn map_error_reason(&self, err: SniffError) -> (r: &'static str) {
        match err {
            SniffError::PeekEmpty => "peek_empty",
            SniffError::ProtocolNotMatched => "protocol_not_matched",
            SniffError::NoTarget => "tls_no_sni",
            SniffError::ParseError => "parse_error",
            SniffError::InvalidHostname => "invalid_hostname",
            SniffError::TooLarge => "client_hello_too_large",
        }
    }
}

/// The longest payload that a TLS record may claim.
pub const MAX_TLS_RECORD_PAYLOAD: usize = 18432;

/// The length of a handshake message from its four-byte header.
pub open spec fn handshake_total(handshake: Seq<u8>) -> int {
    4 + handshake[1] * 65536 + handshake[2] * 256 + handshake[3]
}

/// What the handshake bytes collected so far decide, or `None` while more are
/// needed: a ClientHello of at most `max` bytes, once complete, gives its
/// server name.
pub open spec fn decide_handshake(handshake: Seq<u8>, max: int) -> Option<
    Result<Seq<char>, TlsSniffError>,
> {
    if handshake.len() < 4 {
        None
    } else if handshake[0] != 1 {
        Some(Err(TlsSniffError::ProtocolNotMatched))
    } else if handshake_total(handshake) > max {
        Some(Err(TlsSniffError::TooLargeClientHello))
    } else if handshake.len() < handshake_total(handshake) {
        None
    } else {
        Some(
            tls_common::outer_sni_of_client_hello(
                handshake.subrange(4, handshake_total(handshake)),
            ),
        )
    }
}

/// Whether the bytes can start a handshake record: content type 22 and major
/// version 3, as far as they are there.
pub open spec fn may_start_record(buf: Seq<u8>) -> bool {
    &&& buf.len() >= 1 ==> buf[0] == 0x16
    &&& buf.len() >= 2 ==> buf[1] == 0x03
}

/// The server name in a run of TLS records, after records that carried
/// `handshake`.
pub open spec fn sni_of_records(
    buf: Seq<u8>,
    max: int,
    first: bool,
    handshake: Seq<u8>,
) -> Result<Seq<char>, TlsSniffError>
    decreases buf.len(),
{
    let payload_len = bytes::u16_at(buf, 3);
    if buf.len() < 5 {
        if first && !may_start_record(buf) {
            Err(TlsSniffError::ProtocolNotMatched)
        } else {
            Err(TlsSniffError::InsufficientPrefix)
        }
    } else if !may_start_record(buf) || payload_len == 0 || payload_len > MAX_TLS_RECORD_PAYLOAD {
        Err(TlsSniffError::ProtocolNotMatched)
    } else if 5 + payload_len > buf.len() {
        Err(TlsSniffError::InsufficientPrefix)
    } else {
        let collected = handshake + buf.subrange(5, 5 + payload_len);
        match decide_handshake(collected, max) {
            Some(r) => r,
            None => sni_of_records(buf.skip(5 + payload_len), max, false, collected),
        }
    }
}

/// The server name in the first bytes of a connection that speaks TLS, with a
/// ClientHello of at most `max` bytes.
pub open spec fn sni_of_prefix(buf: Seq<u8>, max: int) -> Result<Seq<char>, TlsSniffError> {
    if buf.len() == 0 {
        Err(TlsSniffError::PeekEmpty)
    } else {
        sni_of_records(buf, max, true, Seq::empty())
    }
}

/// What the handshake bytes collected so far decide.
fn read_handshake(handshake: &[u8], max: usize) -> (r: Option<Result<String, TlsSniffError>>)
    ensures
        match r {
            Some(x) => decide_handshake(handshake@, max as int) == Some(sniff::text_result(x)),
            None => decide_handshake(handshake@, max as int) is None,
        },
{
    if handshake.len() < 4 {
        return None;
    }
    if handshake[0] != 1 {
        return Some(Err(TlsSniffError::ProtocolNotMatched));
    }
    let len_bytes = slice_subrange(handshake, 1, 4);
    let total: usize = match be_u24(len_bytes) {
        Ok(n) => 4 + n,
        Err(e) => {
            return Some(Err(e));
        },
    };
    if total > max {
        return Some(Err(TlsSniffError::TooLargeClientHello));
    }
    if handshake.len() < total {
        return None;
    }
    let body = slice_subrange(handshake, 4, total);
    Some(parse_outer_sni_from_client_hello_body(body))
}

/// The server name that the first bytes of a connection show, in lower case.
/// `InsufficientPrefix` means that more bytes may still show one.
pub fn sniff_tls_sni_from_prefix(buf: &[u8], max_client_hello_size: usize) -> (r: Result<
    String,
    TlsSniffError,
>)
    ensures
        sniff::text_result(r) == sni_of_prefix(buf@, max_client_hello_size as int),
{
    if buf.len() == 0 {
        return Err(TlsSniffError::PeekEmpty);
    }
    let mut off: usize = 0;
    let mut handshake: Vec<u8> = Vec::new();
    assert(buf@.skip(0) =~= buf@);
    assert(handshake@ =~= Seq::empty());
    while buf.len() - off >= 5
        invariant
            off <= buf.len(),
            sni_of_records(
                buf@.skip(off as int),
                max_client_hello_size as int,
                off == 0,
                handshake@,
            ) == sni_of_prefix(buf@, max_client_hello_size as int),
        decreases buf.len() - off,
    {
        let ghost rest = buf@.skip(off as int);
        if buf[off] != 0x16 || buf[off + 1] != 0x03 {
            return Err(TlsSniffError::ProtocolNotMatched);
        }
        let record_len: usize = (buf[off + 3] as usize) * 256 + buf[off + 4] as usize;
        assert(record_len == bytes::u16_at(rest, 3));
        if record_len == 0 || record_len > MAX_TLS_RECORD_PAYLOAD {
            return Err(TlsSniffError::ProtocolNotMatched);
        }
        if buf.len() - off - 5 < record_len {
            return Err(TlsSniffError::InsufficientPrefix);
        }
        let record_end: usize = off + 5 + record_len;
        assert(rest.subrange(5, 5 + record_len) =~= buf@.subrange(off + 5, record_end as int));
        assert(rest.skip(5 + record_len) =~= buf@.skip(record_end as int));
        bytes::append_bytes(&mut handshake, buf, off + 5, record_end);
        match read_handshake(handshake.as_slice(), max_client_hello_size) {
            Some(r) => {
                return r;
            },
            None => {},
        }
        off = record_end;
    }
    if off == 0 && (buf[0] != 0x16 || (buf.len() >= 2 && buf[1] != 0x03)) {
        return Err(TlsSniffError::ProtocolNotMatched);
    }
    Err(TlsSniffError::InsufficientPrefix)
}

proof fn lemma_record_hosts(buf: Seq<u8>, max: int, first: bool, handshake: Seq<u8>)
    ensures
        sni_of_records(buf, max, first, handshake) matches Ok(h)
            ==> tls_common::is_lower_hostname(h),
    decreases buf.len(),
{
    let payload_len = bytes::u16_at(buf, 3);
    if buf.len() >= 5 && 5 + payload_len <= buf.len() {
        let collected = handshake + buf.subrange(5, 5 + payload_len);
        if collected.len() >= 4 {
            tls_common::sni_is_a_lower_case_hostname(
                collected.subrange(4, handshake_total(collected)),
            );
        }
        lemma_record_hosts(buf.skip(5 + payload_len), max, false, collected);
    }
}

/// Whatever a connection starts with, a name taken from it is a host name in
/// lower case.
pub proof fn tls_sni_is_a_lower_case_hostname(buf: Seq<u8>, max: int)
    ensures
        sni_of_prefix(buf, max) matches Ok(h) ==> tls_common::is_lower_hostname(h),
{
    lemma_record_hosts(buf, max, true, Seq::empty());
}

proof fn lemma_records_extend(
    buf: Seq<u8>,
    more: Seq<u8>,
    max: int,
    first: bool,
    handshake: Seq<u8>,
)
    requires
        sni_of_records(buf, max, first, handshake) != Err::<Seq<char>, TlsSniffError>(
            TlsSniffError::InsufficientPrefix,
        ),
    ensures
        sni_of_records(buf + more, max, first, handshake) == sni_of_records(
            buf,
            max,
            first,
            handshake,
        ),
    decreases buf.len(),
{
    let all = buf + more;
    assert(forall|i: int| 0 <= i < buf.len() ==> all[i] == buf[i]);
    let payload_len = bytes::u16_at(buf, 3);
    if buf.len() < 5 {
        assert(first && !may_start_record(buf));
        assert(!may_start_record(all));
    } else if may_start_record(buf) && 0 < payload_len <= MAX_TLS_RECORD_PAYLOAD && 5 + payload_len
        <= buf.len() {
        assert(all.subrange(5, 5 + payload_len) =~= buf.subrange(5, 5 + payload_len));
        assert(all.skip(5 + payload_len) =~= buf.skip(5 + payload_len) + more);
        let collected = handshake + buf.subrange(5, 5 + payload_len);
        if decide_handshake(collected, max) is None {
            lemma_records_extend(buf.skip(5 + payload_len), more, max, false, collected);
        }
    }
}

/// Only "more bytes are needed" is provisional: once the prefix has given any
/// other answer, bytes that follow do not change it.
pub proof fn tls_answer_is_final(buf: Seq<u8>, more: Seq<u8>, max: int)
    requires
        buf.len() > 0,
        sni_of_prefix(buf, max) != Err::<Seq<char>, TlsSniffError>(
            TlsSniffError::InsufficientPrefix,
        ),
    ensures
        sni_of_prefix(buf + more, max) == sni_of_prefix(buf, max),
{
    lemma_records_extend(buf, more, max, true, Seq::empty());
}

// ---------------------------------------------------------------------------
// Handshakes as they are sent
// ---------------------------------------------------------------------------

/// A handshake message as it is sent: its type, its length in three bytes and its
/// body.
pub open spec fn written_message(kind: u8, body: Seq<u8>) -> Seq<u8> {
    seq![kind] + bytes::three(body.len() as int) + body
}

/// A handshake record as it is sent: type 22, version 3.x, the length in two bytes
/// and the payload.
pub open spec fn written_record(minor: u8, payload: Seq<u8>) -> Seq<u8> {
    seq![0x16u8, 0x03u8, minor] + bytes::two(payload.len() as int) + payload
}

/// Records as they are sent, one behind the other.
pub open spec fn written_records(records: Seq<(u8, Seq<u8>)>) -> Seq<u8>
    decreases records.len(),
{
    if records.len() == 0 {
        Seq::empty()
    } else {
        written_record(records[0].0, records[0].1) + written_records(records.drop_first())
    }
}

/// What records carry together.
pub open spec fn carried(records: Seq<(u8, Seq<u8>)>) -> Seq<u8>
    decreases records.len(),
{
    if records.len() == 0 {
        Seq::empty()
    } else {
        records[0].1 + carried(records.drop_first())
    }
}

/// Records have payloads, none longer than is allowed.
pub open spec fn are_records(records: Seq<(u8, Seq<u8>)>) -> bool {
    forall|i: int| 0 <= i < records.len() ==> 0 < (#[trigger] records[i]).1.len() <= 18432
}

proof fn lemma_record(minor: u8, payload: Seq<u8>, rest: Seq<u8>)
    requires
        0 < payload.len() <= 18432,
    ensures
        ({
            let buf = written_record(minor, payload) + rest;
            &&& buf.len() == 5 + payload.len() + rest.len()
            &&& may_start_record(buf)
            &&& bytes::u16_at(buf, 3) == payload.len()
            &&& buf.subrange(5, (5 + payload.len()) as int) == payload
            &&& buf.skip((5 + payload.len()) as int) == rest
        }),
{
    let buf = written_record(minor, payload) + rest;
    assert(buf[3] == bytes::two(payload.len() as int)[0]);
    assert(buf[4] == bytes::two(payload.len() as int)[1]);
    assert(buf.subrange(5, (5 + payload.len()) as int) =~= payload);
    assert(buf.skip((5 + payload.len()) as int) =~= rest);
}

proof fn lemma_message(kind: u8, body: Seq<u8>, n: int)
    requires
        body.len() < 0x100_0000,
        4 <= n <= 4 + body.len(),
    ensures
        ({
            let part = written_message(kind, body).take(n);
            &&& part[0] == kind
            &&& handshake_total(part) == 4 + body.len()
        }),
{
    let part = written_message(kind, body).take(n);
    let len = body.len() as int;
    assert(part[1] == bytes::three(len)[0]);
    assert(part[2] == bytes::three(len)[1]);
    assert(part[3] == bytes::three(len)[2]);
    assert(len / 65536 * 65536 + len / 256 % 256 * 256 + len % 256 == len);
}

proof fn lemma_records_of_hello(
    records: Seq<(u8, Seq<u8>)>,
    behind: Seq<u8>,
    body: Seq<u8>,
    max: int,
    first: bool,
    before: Seq<u8>,
)
    requires
        records.len() > 0,
        are_records(records),
        before + carried(records) == written_message(1, body),
        body.len() < 0x100_0000,
        4 + body.len() <= max,
    ensures
        sni_of_records(written_records(records) + behind, max, first, before)
            == tls_common::outer_sni_of_client_hello(body),
    decreases records.len(),
{
    let rest = records.drop_first();
    let payload = records[0].1;
    let hello = written_message(1, body);
    let tail = written_records(rest) + behind;
    assert(written_records(records) + behind =~= written_record(records[0].0, payload) + tail);
    lemma_record(records[0].0, payload, tail);
    let collected = before + payload;
    assert(collected + carried(rest) =~= hello);
    assert(collected =~= hello.take(collected.len() as int));
    if rest.len() == 0 {
        assert(collected =~= hello);
        lemma_message(1, body, hello.len() as int);
        assert(hello.subrange(4, hello.len() as int) =~= body);
    } else {
        assert(rest[0] == records[1]);
        assert(carried(rest).len() >= rest[0].1.len());
        if collected.len() >= 4 {
            lemma_message(1, body, collected.len() as int);
        }
        assert forall|i: int| 0 <= i < rest.len() implies 0 < (#[trigger] rest[i]).1.len() <= 18432 by {
            assert(rest[i] == records[i + 1]);
        }
        lemma_records_of_hello(rest, behind, body, max, false, collected);
    }
}

/// However a ClientHello is cut into records, and whatever follows it, the name in
/// it is found.
pub proof fn hello_in_records_is_read(
    records: Seq<(u8, Seq<u8>)>,
    behind: Seq<u8>,
    body: Seq<u8>,
    max: int,
)
    requires
        are_records(records),
        carried(records) == written_message(1, body),
        body.len() < 0x100_0000,
        4 + body.len() <= max,
    ensures
        sni_of_prefix(written_records(records) + behind, max)
            == tls_common::outer_sni_of_client_hello(body),
{
    assert(records.len() > 0);
    let buf = written_records(records) + behind;
    let tail = written_records(records.drop_first());
    lemma_record(records[0].0, records[0].1, tail);
    assert(Seq::<u8>::empty() + carried(records) =~= carried(records));
    lemma_records_of_hello(records, behind, body, max, true, Seq::empty());
}

proof fn lemma_records_cut_short(
    records: Seq<(u8, Seq<u8>)>,
    body: Seq<u8>,
    max: int,
    first: bool,
    before: Seq<u8>,
    n: int,
)
    requires
        are_records(records),
        before + carried(records) == written_message(1, body),
        body.len() < 0x100_0000,
        4 + body.len() <= max,
        0 <= n < written_records(records).len(),
    ensures
        sni_of_records(written_records(records).take(n), max, first, before) == Err::<
            Seq<char>,
            TlsSniffError,
        >(TlsSniffError::InsufficientPrefix),
    decreases records.len(),
{
    let rest = records.drop_first();
    let payload = records[0].1;
    let hello = written_message(1, body);
    let all = written_records(records);
    let tail = written_records(rest);
    let buf = all.take(n);
    lemma_record(records[0].0, payload, tail);
    assert(forall|i: int| 0 <= i < n ==> buf[i] == all[i]);
    let size = 5 + payload.len() as int;
    if n >= size {
        assert(buf.subrange(5, size) =~= all.subrange(5, size));
        assert(buf.skip(size) =~= tail.take(n - size));
        let collected = before + payload;
        assert(collected + carried(rest) =~= hello);
        assert(collected =~= hello.take(collected.len() as int));
        assert(rest.len() > 0);
        assert(rest[0] == records[1]);
        assert(carried(rest).len() >= rest[0].1.len());
        if collected.len() >= 4 {
            lemma_message(1, body, collected.len() as int);
        }
        assert forall|i: int| 0 <= i < rest.len() implies 0 < (#[trigger] rest[i]).1.len() <= 18432 by {
            assert(rest[i] == records[i + 1]);
        }
        lemma_records_cut_short(rest, body, max, false, collected, n - size);
    }
}

/// As long as a ClientHello has not arrived whole, more is asked for.
pub proof fn beginning_of_a_hello_asks_for_more(
    records: Seq<(u8, Seq<u8>)>,
    body: Seq<u8>,
    max: int,
    n: int,
)
    requires
        are_records(records),
        carried(records) == written_message(1, body),
        body.len() < 0x100_0000,
        4 + body.len() <= max,
        0 < n < written_records(records).len(),
    ensures
        sni_of_prefix(written_records(records).take(n), max) == Err::<Seq<char>, TlsSniffError>(
            TlsSniffError::InsufficientPrefix,
        ),
{
    assert(Seq::<u8>::empty() + carried(records) =~= carried(records));
    lemma_records_cut_short(records, body, max, true, Seq::empty(), n);
}

/// A connection that starts with something else than a handshake record speaks no
/// TLS, and neither does one whose first message is no ClientHello. A ClientHello
/// that is longer than is looked at is refused.
pub proof fn other_beginnings_are_refused(buf: Seq<u8>, minor: u8, payload: Seq<u8>, max: int)
    requires
        buf.len() > 0,
        4 <= payload.len() <= 18432,
    ensures
        buf[0] != 22 || (buf.len() > 1 && buf[1] != 3) ==> sni_of_prefix(buf, max) == Err::<
            Seq<char>,
            TlsSniffError,
        >(TlsSniffError::ProtocolNotMatched),
        payload[0] != 1 ==> sni_of_prefix(written_record(minor, payload) + buf, max) == Err::<
            Seq<char>,
            TlsSniffError,
        >(TlsSniffError::ProtocolNotMatched),
        payload[0] == 1 && 4 + payload[1] * 65536 + payload[2] * 256 + payload[3] > max
            ==> sni_of_prefix(written_record(minor, payload) + buf, max) == Err::<
            Seq<char>,
            TlsSniffError,
        >(TlsSniffError::TooLargeClientHello),
{
    lemma_record(minor, payload, buf);
    assert(Seq::<u8>::empty() + payload =~= payload);
}

/// A host that was found is the answer, too few bytes ask for more, and anything else
/// gives up.
pub proof fn only_a_short_beginning_waits(r: Result<Seq<char>, TlsSniffError>)
    ensures
        r matches Ok(host) ==> attempt_of(r) == Attempt::Matched(host),
        attempt_of(r) is NeedMore <==> r == Err::<Seq<char>, _>(TlsSniffError::InsufficientPrefix),
        attempt_of(r) is Matched <==> r is Ok,
{
}

} // verus!
