//! HTTP/1.x over TCP: the host in the header of the first request.

use crate::bytes;
use crate::sniff;
use crate::sniff::{Attempt, SniffAttempt, SniffError, Sniffer, SnifferLimits};
use crate::text;
use core::time::Duration;
use vstd::prelude::*;
use vstd::slice::slice_subrange;
use vstd::utf8::*;

verus! {

#[derive(Debug, Clone, Copy, PartialEq, Eq, Structural)]
pub enum HttpSniffError {
    PeekEmpty,
    InsufficientPrefix,
    ProtocolNotMatched,
    HttpNoHost,
    ParseError,
    InvalidHostname,
    TooLargeHeader,
}

/// Finds the host of an HTTP/1.x connection.
pub struct HttpSniffer {
    limits: SnifferLimits,
}

impl HttpSniffer {
    pub fn new(
        peek_len: usize,
        max_len: usize,
        max_retries: usize,
        wait_more_ms: u64,
        timeout_ms: u64,
    ) -> (r: Self)
        ensures
            r.limits() == sniff::limits_of(
                peek_len,
                max_len,
                max_retries,
                wait_more_ms,
                timeout_ms,
            ),
    {
        HttpSniffer {
            limits: sniff::make_limits(peek_len, max_len, max_retries, wait_more_ms, timeout_ms),
        }
    }
}

/// What the outcome of the parser means to the caller of a sniffer.
pub open spec fn attempt_of(r: Result<Seq<char>, HttpSniffError>) -> Attempt {
    match r {
        Ok(host) => Attempt::Matched(host),
        Err(HttpSniffError::InsufficientPrefix) => Attempt::NeedMore,
        Err(HttpSniffError::PeekEmpty) => Attempt::Abort(SniffError::PeekEmpty),
        Err(HttpSniffError::ProtocolNotMatched) => Attempt::Abort(SniffError::ProtocolNotMatched),
        Err(HttpSniffError::HttpNoHost) => Attempt::Abort(SniffError::NoTarget),
        Err(HttpSniffError::ParseError) => Attempt::Abort(SniffError::ParseError),
        Err(HttpSniffError::InvalidHostname) => Attempt::Abort(SniffError::InvalidHostname),
        Err(HttpSniffError::TooLargeHeader) => Attempt::Abort(SniffError::TooLarge),
    }
}

impl Sniffer for HttpSniffer {
    open spec fn engine_name(&self) -> Seq<char> {
        "http"@
    }

    closed spec fn limits(&self) -> SnifferLimits {
        self.limits
    }

    open spec fn attempt(&self, buf: Seq<u8>, max_len: int) -> Attempt {
        attempt_of(host_of_prefix(buf, max_len))
    }

    open spec fn error_reason(&self, err: SniffError) -> Seq<char> {
        match err {
            SniffError::PeekEmpty => "peek_empty"@,
            SniffError::ProtocolNotMatched => "protocol_not_matched"@,
            SniffError::NoTarget => "http_no_host"@,
            SniffError::ParseError => "parse_error"@,
            SniffError::InvalidHostname => "invalid_hostname"@,
            SniffError::TooLarge => "header_too_large"@,
        }
    }

    fn name(&self) -> (r: &'static str) {
        "http"
    }

    fn initial_peek_len(&self) -> (r: usize) {
        self.limits.peek_len
    }

    fn max_peek_len(&self) -> (r: usize) {
        self.limits.max_len
    }

    fn max_retries(&self) -> (r: usize) {
        self.limits.max_retries
    }

    fn wait_more_duration(&self) -> (r: Duration) {
        Duration::from_millis(self.limits.wait_more_ms)
    }

    fn timeout_duration(&self) -> (r: Duration) {
        Duration::from_millis(self.limits.timeout_ms)
    }

    fn classify(&self, buf: &[u8], max_len: usize) -> (r: SniffAttempt) {
        match sniff_http_host_from_prefix(buf, max_len) {
            Ok(host) => SniffAttempt::Matched(host),
            Err(HttpSniffError::InsufficientPrefix) => SniffAttempt::NeedMore,
            Err(HttpSniffError::PeekEmpty) => SniffAttempt::Abort(SniffError::PeekEmpty),
            Err(HttpSniffError::ProtocolNotMatched) => SniffAttempt::Abort(
                SniffError::ProtocolNotMatched,
            ),
            Err(HttpSniffError::HttpNoHost) => SniffAttempt::Abort(SniffError::NoTarget),
            Err(HttpSniffError::ParseError) => SniffAttempt::Abort(SniffError::ParseError),
            Err(HttpSniffError::InvalidHostname) => SniffAttempt::Abort(
                SniffError::InvalidHostname,
            ),
            Err(HttpSniffError::TooLargeHeader) => SniffAttempt::Abort(SniffError::TooLarge),
        }
    }

    fn map_error_reason(&self, err: SniffError) -> (r: &'static str) {
        match err {
            SniffError::PeekEmpty => "peek_empty",
            SniffError::ProtocolNotMatched => "protocol_not_matched",
            SniffError::NoTarget => "http_no_host",
            SniffError::ParseError => "parse_error",
            SniffError::InvalidHostname => "invalid_hostname",
            SniffError::TooLarge => "header_too_large",
        }
    }
}

/// Carriage return, line feed.
pub open spec fn crlf() -> Seq<u8> {
    seq![13u8, 10u8]
}

/// The blank line that ends a header.
pub open spec fn crlf_crlf() -> Seq<u8> {
    seq![13u8, 10u8, 13u8, 10u8]
}

/// The request line of HTTP/1.x: a method in capitals, a target and the
/// version, one space between them.
pub open spec fn is_request_line(line: Seq<char>) -> bool {
    let parts = text::split_at_each(line, seq![' ']);
    &&& parts.len() == 3
    &&& parts[0].len() > 0
    &&& forall|i: int| 0 <= i < parts[0].len() ==> text::is_ascii_upper(#[trigger] parts[0][i])
    &&& parts[1].len() > 0
    &&& parts[2] == "HTTP/1.0"@ || parts[2] == "HTTP/1.1"@
}

/// Whether the first line is complete and is no HTTP/1.x request line.
pub open spec fn has_wrong_first_line(buf: Seq<u8>) -> bool {
    match text::find_from(buf, crlf(), 0) {
        Some(end) => !valid_utf8(buf.take(end)) || !is_request_line(decode_utf8(buf.take(end))),
        None => false,
    }
}

/// The host name without the port, if there is one: what stands before the last
/// colon when only digits follow it.
pub open spec fn without_port(value: Seq<char>) -> Seq<char> {
    match text::find_last(value, ':') {
        Some(k) => if 0 < k && k + 1 < value.len() && (forall|i: int|
            k < i < value.len() ==> text::is_digit(#[trigger] value[i])) {
            value.take(k)
        } else {
            value
        },
        None => value,
    }
}

/// The host name that the value of a `Host` header gives.
pub open spec fn host_of_value(value: Seq<char>) -> Result<Seq<char>, HttpSniffError> {
    let value = text::trimmed(value);
    let host = text::lowered(text::trimmed(without_port(value)));
    if value.len() == 0 {
        Err(HttpSniffError::ParseError)
    } else if value[0] == '[' || !sniff::is_hostname(host) {
        Err(HttpSniffError::InvalidHostname)
    } else {
        Ok(host)
    }
}

/// The host in the header lines up to the first empty one: that of the first
/// line whose name is `host`. A line before it without a colon is an error.
pub open spec fn host_in_lines(lines: Seq<Seq<char>>) -> Result<Seq<char>, HttpSniffError>
    decreases lines.len(),
{
    if lines.len() == 0 || lines[0].len() == 0 {
        Err(HttpSniffError::HttpNoHost)
    } else {
        match text::find_from(lines[0], seq![':'], 0) {
            None => Err(HttpSniffError::ParseError),
            Some(k) => if text::same_ignoring_case(lines[0].take(k), "host"@) {
                host_of_value(lines[0].skip(k + 1))
            } else {
                host_in_lines(lines.drop_first())
            },
        }
    }
}

/// The host in a complete header.
pub open spec fn host_of_header(header: Seq<u8>) -> Result<Seq<char>, HttpSniffError> {
    let lines = text::split_at_each(decode_utf8(header), seq!['\r', '\n']);
    if !valid_utf8(header) || !is_request_line(lines[0]) {
        Err(HttpSniffError::ProtocolNotMatched)
    } else {
        host_in_lines(lines.drop_first())
    }
}

/// The host in the first bytes of a connection that speaks HTTP/1.x, with a
/// header of fewer than `max` bytes while it is incomplete.
pub open spec fn host_of_prefix(buf: Seq<u8>, max: int) -> Result<Seq<char>, HttpSniffError> {
    if buf.len() == 0 {
        Err(HttpSniffError::PeekEmpty)
    } else if !('A' as u8 <= buf[0] <= 'Z' as u8) || has_wrong_first_line(buf) {
        Err(HttpSniffError::ProtocolNotMatched)
    } else {
        match text::find_from(buf, crlf_crlf(), 0) {
            Some(end) => host_of_header(buf.take(end + 4)),
            None => if buf.len() >= max {
                Err(HttpSniffError::TooLargeHeader)
            } else {
                Err(HttpSniffError::InsufficientPrefix)
            },
        }
    }
}

/// The end of the header, after its blank line.
pub fn find_http_header_end(buf: &[u8]) -> (r: Option<usize>)
    ensures
        r matches Some(e) ==> 4 <= e <= buf@.len() && text::find_from(buf@, crlf_crlf(), 0)
            == Some(e - 4),
        r is None ==> text::find_from(buf@, crlf_crlf(), 0) is None,
{
    let pat: Vec<u8> = vec![13, 10, 13, 10];
    assert(pat@ =~= crlf_crlf());
    proof {
        text::lemma_find_from(buf@, pat@, 0);
    }
    match bytes::find_bytes(buf, pat.as_slice(), 0) {
        Some(k) => {
            assert(k + 4 <= buf.len());
            Some(k + 4)
        },
        None => None,
    }
}

fn request_line_chars_valid(line: &[char]) -> (r: bool)
    ensures
        r == is_request_line(line@),
{
    let space = vec![' '];
    assert(space@ =~= seq![' ']);
    let parts = text::split_chars(line, space.as_slice());
    let ghost want = text::split_at_each(line@, seq![' ']);
    if parts.len() != 3 {
        return false;
    }
    assert(want[0] == parts@[0]@ && want[1] == parts@[1]@ && want[2] == parts@[2]@);
    if parts[0].len() == 0 || parts[1].len() == 0 {
        return false;
    }
    let mut i: usize = 0;
    while i < parts[0].len()
        invariant
            parts@.len() == 3,
            i <= parts@[0]@.len(),
            want == text::split_at_each(line@, seq![' ']),
            want.len() == 3,
            want[0] == parts@[0]@,
            forall|j: int| 0 <= j < i ==> text::is_ascii_upper(#[trigger] want[0][j]),
        decreases parts@[0]@.len() - i,
    {
        let c = parts[0][i];
        if !(c >= 'A' && c <= 'Z') {
            assert(!text::is_ascii_upper(want[0][i as int]));
            return false;
        }
        i += 1;
    }
    text::chars_eq_str(parts[2].as_slice(), "HTTP/1.0") || text::chars_eq_str(
        parts[2].as_slice(),
        "HTTP/1.1",
    )
}

/// Whether a line is an HTTP/1.x request line.
pub fn looks_like_http_1x_request_line(line: &str) -> (r: bool)
    ensures
        r == is_request_line(line@),
{
    let chars = text::chars_of(line);
    request_line_chars_valid(chars.as_slice())
}

fn strip_port(value: &[char]) -> (r: Vec<char>)
    ensures
        r@ == without_port(value@),
{
    match text::find_last_char(value, ':') {
        Some(k) => {
            let mut digits = 0 < k && value.len() - k > 1;
            let mut i: usize = k + 1;
            while digits && i < value.len()
                invariant
                    k < i,
                    k < value.len(),
                    digits ==> i <= value.len() && 0 < k && k + 1 < value.len() && (forall|j: int|
                        k < j < i ==> text::is_digit(#[trigger] value@[j])),
                    !digits ==> !(0 < k && k + 1 < value.len() && (forall|j: int|
                        k < j < value.len() ==> text::is_digit(#[trigger] value@[j]))),
                decreases value.len() - i + (if digits { 1int } else { 0 }),
            {
                let c = value[i];
                if !(c >= '0' && c <= '9') {
                    assert(!text::is_digit(value@[i as int]));
                    digits = false;
                } else {
                    i += 1;
                }
            }
            if digits {
                let r = text::slice_chars(value, 0, k);
                assert(r@ =~= value@.take(k as int));
                r
            } else {
                let r = text::slice_chars(value, 0, value.len());
                assert(r@ =~= value@);
                r
            }
        },
        None => {
            let r = text::slice_chars(value, 0, value.len());
            assert(r@ =~= value@);
            r
        },
    }
}

fn host_from_value(value: &[char]) -> (r: Result<String, HttpSniffError>)
    ensures
        sniff::text_result(r) == host_of_value(value@),
{
    let value = text::trim_chars(value);
    if value.len() == 0 {
        return Err(HttpSniffError::ParseError);
    }
    if value[0] == '[' {
        return Err(HttpSniffError::InvalidHostname);
    }
    let bare = strip_port(value.as_slice());
    let bare = text::trim_chars(bare.as_slice());
    let host = text::lower_chars(bare.as_slice());
    if sniff::hostname_chars_valid(host.as_slice()) {
        Ok(text::string_of(host.as_slice()))
    } else {
        Err(HttpSniffError::InvalidHostname)
    }
}

/// The host name in the value of a `Host` header, in lower case and without the
/// port.
pub fn parse_http_host_header_value(value: &str) -> (r: Result<String, HttpSniffError>)
    ensures
        sniff::text_result(r) == host_of_value(value@),
{
    let chars = text::chars_of(value);
    host_from_value(chars.as_slice())
}

/// Whether the bytes already show that the connection does not speak HTTP/1.x:
/// they hold a first line, and it is no request line.
pub fn definitely_not_http_1x_prefix(buf: &[u8]) -> (r: bool)
    ensures
        r == has_wrong_first_line(buf@),
{
    let pat: Vec<u8> = vec![13, 10];
    assert(pat@ =~= crlf());
    proof {
        text::lemma_find_from(buf@, pat@, 0);
    }
    match bytes::find_bytes(buf, pat.as_slice(), 0) {
        Some(end) => {
            let line = slice_subrange(buf, 0, end);
            assert(line@ =~= buf@.take(end as int));
            match text::chars_of_utf8(line) {
                Some(chars) => !request_line_chars_valid(chars.as_slice()),
                None => true,
            }
        },
        None => false,
    }
}

fn host_from_lines(lines: &Vec<Vec<char>>) -> (r: Result<String, HttpSniffError>)
    requires
        lines@.len() > 0,
    ensures
        sniff::text_result(r) == host_in_lines(text::texts(lines@).drop_first()),
{
    let ghost all = text::texts(lines@);
    let mut k: usize = 1;
    assert(all.drop_first() =~= all.skip(1));
    let colon = vec![':'];
    assert(colon@ =~= seq![':']);
    while k < lines.len()
        invariant
            1 <= k <= lines@.len(),
            all == text::texts(lines@),
            colon@ == seq![':'],
            host_in_lines(all.drop_first()) == host_in_lines(all.skip(k as int)),
        decreases lines@.len() - k,
    {
        let line = &lines[k];
        assert(all.skip(k as int)[0] == line@);
        assert(all.skip(k as int).drop_first() =~= all.skip(k + 1));
        if line.len() == 0 {
            return Err(HttpSniffError::HttpNoHost);
        }
        proof {
            text::lemma_find_from(line@, seq![':'], 0);
        }
        match text::find_chars(line.as_slice(), colon.as_slice(), 0) {
            None => {
                return Err(HttpSniffError::ParseError);
            },
            Some(at) => {
                let name = text::slice_chars(line.as_slice(), 0, at);
                assert(name@ =~= line@.take(at as int));
                let host = text::chars_of("host");
                if text::chars_eq_ignoring_case(name.as_slice(), host.as_slice()) {
                    let value = text::slice_chars(line.as_slice(), at + 1, line.len());
                    assert(value@ =~= line@.skip(at + 1));
                    return host_from_value(value.as_slice());
                }
            },
        }
        k += 1;
    }
    Err(HttpSniffError::HttpNoHost)
}

proof fn lemma_split_not_empty(s: Seq<char>, pat: Seq<char>)
    ensures
        text::split_at_each(s, pat).len() > 0,
{
}

/// The host that the first bytes of a connection show, in lower case and
/// without the port. `InsufficientPrefix` means that more bytes may still show
/// one.
pub fn sniff_http_host_from_prefix(buf: &[u8], max_header_size: usize) -> (r: Result<
    String,
    HttpSniffError,
>)
    ensures
        sniff::text_result(r) == host_of_prefix(buf@, max_header_size as int),
{
    if buf.len() == 0 {
        return Err(HttpSniffError::PeekEmpty);
    }
    if !(buf[0] >= 65 && buf[0] <= 90) || definitely_not_http_1x_prefix(buf) {
        return Err(HttpSniffError::ProtocolNotMatched);
    }
    match find_http_header_end(buf) {
        Some(end) => {
            let header = slice_subrange(buf, 0, end);
            assert(header@ =~= buf@.take(end as int));
            match text::chars_of_utf8(header) {
                Some(chars) => {
                    let pat = vec!['\r', '\n'];
                    assert(pat@ =~= seq!['\r', '\n']);
                    let lines = text::split_chars(chars.as_slice(), pat.as_slice());
                    proof {
                        lemma_split_not_empty(chars@, pat@);
                    }
                    assert(text::texts(lines@)[0] == lines@[0]@);
                    if !request_line_chars_valid(lines[0].as_slice()) {
                        return Err(HttpSniffError::ProtocolNotMatched);
                    }
                    host_from_lines(&lines)
                },
                None => Err(HttpSniffError::ProtocolNotMatched),
            }
        },
        None => if buf.len() >= max_header_size {
            Err(HttpSniffError::TooLargeHeader)
        } else {
            Err(HttpSniffError::InsufficientPrefix)
        },
    }
}

proof fn lemma_host_in_lines(lines: Seq<Seq<char>>)
    ensures
        host_in_lines(lines) matches Ok(h) ==> sniff::is_hostname(h) && text::lowered(h) == h,
    decreases lines.len(),
{
    if lines.len() > 0 && lines[0].len() > 0 {
        if let Some(k) = text::find_from(lines[0], seq![':'], 0) {
            text::lowered_idempotent(
                text::trimmed(without_port(text::trimmed(lines[0].skip(k + 1)))),
            );
            lemma_host_in_lines(lines.drop_first());
        }
    }
}

/// Whatever a connection starts with, a host taken from it is a host name in
/// lower case.
pub proof fn http_host_is_a_lower_case_hostname(buf: Seq<u8>, max: int)
    ensures
        host_of_prefix(buf, max) matches Ok(h) ==> sniff::is_hostname(h) && text::lowered(h) == h,
{
    if let Some(end) = text::find_from(buf, crlf_crlf(), 0) {
        let header = buf.take(end + 4);
        lemma_host_in_lines(
            text::split_at_each(decode_utf8(header), seq!['\r', '\n']).drop_first(),
        );
    }
}

/// Once the beginning of a connection gives an answer other than that it is too
/// short or that its header is too large, what follows does not change it.
pub proof fn http_answer_is_final(buf: Seq<u8>, more: Seq<u8>, max: int)
    requires
        buf.len() > 0,
        host_of_prefix(buf, max) != Err::<Seq<char>, _>(HttpSniffError::InsufficientPrefix),
        host_of_prefix(buf, max) != Err::<Seq<char>, _>(HttpSniffError::TooLargeHeader),
    ensures
        host_of_prefix(buf + more, max) == host_of_prefix(buf, max),
{
    let all = buf + more;
    assert(all[0] == buf[0]);
    if 'A' as u8 <= buf[0] <= 'Z' as u8 {
        if let Some(end) = text::find_from(buf, crlf_crlf(), 0) {
            text::lemma_find_from(buf, crlf_crlf(), 0);
            text::lemma_find_from_extends(buf, more, crlf_crlf(), 0);
            assert(all.take(end + 4) =~= buf.take(end + 4));
            let blank = buf.subrange(end, end + 4);
            assert(buf.subrange(end, end + 2) =~= blank.subrange(0, 2));
            assert(blank.subrange(0, 2) =~= crlf());
            assert(text::occurs_at(buf, crlf(), end));
        }
        text::lemma_find_from(buf, crlf(), 0);
        assert(text::find_from(buf, crlf(), 0) is Some);
        text::lemma_find_from_extends(buf, more, crlf(), 0);
        if let Some(end) = text::find_from(buf, crlf(), 0) {
            assert(all.take(end) =~= buf.take(end));
        }
    }
}

/// A host that was found is the answer, too few bytes ask for more, and anything else
/// gives up.
pub proof fn only_a_short_beginning_waits(r: Result<Seq<char>, HttpSniffError>)
    ensures
        r matches Ok(host) ==> attempt_of(r) == Attempt::Matched(host),
        attempt_of(r) is NeedMore <==> r == Err::<Seq<char>, _>(HttpSniffError::InsufficientPrefix),
        attempt_of(r) is Matched <==> r is Ok,
{
}

} // verus!
