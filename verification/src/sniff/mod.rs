//! Finding the host name that a client is about to talk to in the first bytes
//! that it sends.

pub mod http;
pub mod http_written;
pub mod quic;
pub mod quic_crypto;
pub mod quic_written;
pub mod tls;
pub mod tls_common;
pub mod udp;

use crate::cli::Config;
use crate::net::SocketAddr;
use crate::sniff::http::HttpSniffer;
use crate::sniff::quic::QuicSniUdpSniffer;
use crate::sniff::tls::TlsSniffer;
use crate::text;
use crate::time;
use core::time::Duration;
use vstd::prelude::*;

verus! {

/// The result of a parser that yields a text, with the text by its characters.
pub open spec fn text_result<E>(r: Result<String, E>) -> Result<Seq<char>, E> {
    match r {
        Ok(s) => Ok(s@),
        Err(e) => Err(e),
    }
}

/// What one look at the bytes of a client gives.
pub enum SniffAttempt {
    Matched(String),
    NeedMore,
    Abort(SniffError),
}

/// The view of [`SniffAttempt`].
pub enum Attempt {
    Matched(Seq<char>),
    NeedMore,
    Abort(SniffError),
}

impl View for SniffAttempt {
    type V = Attempt;

    open spec fn view(&self) -> Attempt {
        match *self {
            SniffAttempt::Matched(host) => Attempt::Matched(host@),
            SniffAttempt::NeedMore => Attempt::NeedMore,
            SniffAttempt::Abort(e) => Attempt::Abort(e),
        }
    }
}

#[derive(Debug, Clone, Copy, PartialEq, Eq, Structural)]
pub enum SniffError {
    PeekEmpty,
    ProtocolNotMatched,
    NoTarget,
    ParseError,
    InvalidHostname,
    TooLarge,
}

#[derive(Debug, Clone, Copy)]
pub struct SniffConfig {
    pub tcp_peek_buffer_size: usize,
}

/// How far and how long a sniffer looks: how many bytes at first and at most,
/// how often it tries again, how long it waits for more bytes and for all.
#[derive(Debug, Clone, Copy)]
pub struct SnifferLimits {
    pub peek_len: usize,
    pub max_len: usize,
    pub max_retries: usize,
    pub wait_more_ms: u64,
    pub timeout_ms: u64,
}

/// The limits as configured, with no wait shorter than a millisecond.
pub open spec fn limits_of(
    peek_len: usize,
    max_len: usize,
    max_retries: usize,
    wait_more_ms: u64,
    timeout_ms: u64,
) -> SnifferLimits {
    SnifferLimits {
        peek_len,
        max_len,
        max_retries,
        wait_more_ms: if wait_more_ms == 0 {
            1
        } else {
            wait_more_ms
        },
        timeout_ms: if timeout_ms == 0 {
            1
        } else {
            timeout_ms
        },
    }
}

pub(crate) fn make_limits(
    peek_len: usize,
    max_len: usize,
    max_retries: usize,
    wait_more_ms: u64,
    timeout_ms: u64,
) -> (r: SnifferLimits)
    ensures
        r == limits_of(peek_len, max_len, max_retries, wait_more_ms, timeout_ms),
{
    SnifferLimits {
        peek_len,
        max_len,
        max_retries,
        wait_more_ms: if wait_more_ms == 0 {
            1
        } else {
            wait_more_ms
        },
        timeout_ms: if timeout_ms == 0 {
            1
        } else {
            timeout_ms
        },
    }
}

/// A protocol that names its target in the first bytes of a TCP connection.
pub trait Sniffer: Send + Sync {
    /// The name of the protocol.
    spec fn engine_name(&self) -> Seq<char>;

    /// How far and how long the sniffer looks.
    spec fn limits(&self) -> SnifferLimits;

    /// What the bytes give, when the message may be at most `max_len` long.
    spec fn attempt(&self, buf: Seq<u8>, max_len: int) -> Attempt;

    /// The word for a failure.
    spec fn error_reason(&self, err: SniffError) -> Seq<char>;

    fn name(&self) -> (r: &'static str)
        ensures
            r@ == self.engine_name(),
    ;

    fn initial_peek_len(&self) -> (r: usize)
        ensures
            r == self.limits().peek_len,
    ;

    fn max_peek_len(&self) -> (r: usize)
        ensures
            r == self.limits().max_len,
    ;

    fn max_retries(&self) -> (r: usize)
        ensures
            r == self.limits().max_retries,
    ;

    fn wait_more_duration(&self) -> (r: Duration)
        ensures
            r == time::duration_of_millis(self.limits().wait_more_ms),
    ;

    fn timeout_duration(&self) -> (r: Duration)
        ensures
            r == time::duration_of_millis(self.limits().timeout_ms),
    ;

    fn classify(&self, buf: &[u8], max_len: usize) -> (r: SniffAttempt)
        ensures
            r@ == self.attempt(buf@, max_len as int),
    ;

    fn map_error_reason(&self, err: SniffError) -> (r: &'static str)
        ensures
            r@ == self.error_reason(err),
    ;
}

/// A letter, a digit or a hyphen.
pub open spec fn is_label_char(c: char) -> bool {
    text::is_ascii_alpha(c) || text::is_digit(c) || c == '-'
}

/// One label of a host name: 1 to 63 letters, digits and hyphens, with no
/// hyphen at either end.
pub open spec fn is_valid_label(label: Seq<char>) -> bool {
    &&& 1 <= label.len() <= 63
    &&& label[0] != '-'
    &&& label.last() != '-'
    &&& forall|i: int| 0 <= i < label.len() ==> is_label_char(#[trigger] label[i])
}

/// A host name: at most 253 characters, labels between dots, and at least one
/// letter, so that a dotted IPv4 address is none.
pub open spec fn is_hostname(host: Seq<char>) -> bool {
    let labels = text::split_at_each(host, seq!['.']);
    &&& 1 <= host.len() <= 253
    &&& forall|i: int| 0 <= i < labels.len() ==> is_valid_label(#[trigger] labels[i])
    &&& exists|i: int| 0 <= i < host.len() && text::is_ascii_alpha(#[trigger] host[i])
}

fn label_is_valid(label: &[char]) -> (r: bool)
    ensures
        r == is_valid_label(label@),
{
    let n = label.len();
    if n == 0 || n > 63 || label[0] == '-' || label[n - 1] == '-' {
        return false;
    }
    let mut i: usize = 0;
    while i < n
        invariant
            i <= n == label@.len(),
            forall|j: int| 0 <= j < i ==> is_label_char(#[trigger] label@[j]),
        decreases n - i,
    {
        let c = label[i];
        if !((c >= 'a' && c <= 'z') || (c >= 'A' && c <= 'Z') || (c >= '0' && c <= '9') || c
            == '-') {
            assert(!is_label_char(label@[i as int]));
            return false;
        }
        i += 1;
    }
    true
}

/// Whether a text is a host name.
pub fn hostname_chars_valid(host: &[char]) -> (r: bool)
    ensures
        r == is_hostname(host@),
{
    let n = host.len();
    if n == 0 || n > 253 {
        return false;
    }
    let dot = vec!['.'];
    assert(dot@ =~= seq!['.']);
    let labels = text::split_chars(host, dot.as_slice());
    let ghost parts = text::split_at_each(host@, seq!['.']);
    let mut k: usize = 0;
    while k < labels.len()
        invariant
            k <= labels@.len() == parts.len(),
            text::texts(labels@) == parts,
            parts == text::split_at_each(host@, seq!['.']),
            forall|j: int| 0 <= j < k ==> is_valid_label(#[trigger] parts[j]),
        decreases labels@.len() - k,
    {
        assert(parts[k as int] == labels@[k as int]@);
        if !label_is_valid(labels[k].as_slice()) {
            return false;
        }
        k += 1;
    }
    let mut i: usize = 0;
    while i < n
        invariant
            i <= n == host@.len(),
            1 <= n <= 253,
            parts == text::split_at_each(host@, seq!['.']),
            forall|j: int| 0 <= j < parts.len() ==> is_valid_label(#[trigger] parts[j]),
            forall|j: int| 0 <= j < i ==> !text::is_ascii_alpha(#[trigger] host@[j]),
        decreases n - i,
    {
        let c = host[i];
        if (c >= 'a' && c <= 'z') || (c >= 'A' && c <= 'Z') {
            assert(text::is_ascii_alpha(host@[i as int]));
            return true;
        }
        i += 1;
    }
    false
}

/// Whether a string is a host name that a client may ask for.
pub fn is_valid_sni_hostname(host: &str) -> (r: bool)
    ensures
        r == is_hostname(host@),
{
    let chars = text::chars_of(host);
    hostname_chars_valid(chars.as_slice())
}

// ---------------------------------------------------------------------------
// Looking again
// ---------------------------------------------------------------------------

/// Tries are left, there were bytes, and there were more than at the look before.
pub open spec fn may_retry(attempt: int, max_retries: int, cur_len: int, last_peek_len: int) -> bool {
    attempt < max_retries && cur_len > 0 && cur_len > last_peek_len
}

fn can_retry(attempt: usize, max_retries: usize, cur_len: usize, last_peek_len: usize) -> (r: bool)
    ensures
        r == may_retry(
            attempt as int,
            max_retries as int,
            cur_len as int,
            last_peek_len as int,
        ),
{
    attempt < max_retries && cur_len > 0 && cur_len > last_peek_len
}

/// Whether to look again after a look that showed too little.
pub fn should_retry_sniff(
    engine_name: &str,
    attempt: usize,
    max_retries: usize,
    cur_len: usize,
    last_peek_len: usize,
    orig_dst: SocketAddr,
) -> (r: bool)
    ensures
        r == may_retry(
            attempt as int,
            max_retries as int,
            cur_len as int,
            last_peek_len as int,
        ),
{
    can_retry(attempt, max_retries, cur_len, last_peek_len)
}

/// What to do while waiting for more bytes.
#[derive(Debug, Clone, Copy, PartialEq, Eq, Structural)]
pub enum GrowthStep {
    /// There are more.
    Grown,
    /// The time is up.
    TimedOut,
    /// Look again after so many milliseconds.
    Sleep { ms: u64 },
}

/// The longest pause between two looks for more bytes.
pub const GROWTH_POLL_MS: u64 = 5;

/// What to do after a look that saw `len` bytes, when `last_len` were seen before
/// and `remaining_ms` are left to wait.
pub fn growth_step(len: usize, last_len: usize, remaining_ms: u64) -> (r: GrowthStep)
    ensures
        r == if len > last_len {
            GrowthStep::Grown
        } else if remaining_ms == 0 {
            GrowthStep::TimedOut
        } else {
            GrowthStep::Sleep { ms: smaller(GROWTH_POLL_MS as int, remaining_ms as int) as u64 }
        },
{
    if len > last_len {
        GrowthStep::Grown
    } else if remaining_ms == 0 {
        GrowthStep::TimedOut
    } else if remaining_ms < GROWTH_POLL_MS {
        GrowthStep::Sleep { ms: remaining_ms }
    } else {
        GrowthStep::Sleep { ms: GROWTH_POLL_MS }
    }
}

/// One search in the first bytes of a connection: how far it may look, how far
/// it looks now, and what it saw before.
#[derive(Debug, Clone, Copy, PartialEq, Eq, Structural)]
pub struct SniffRun {
    pub max_len: usize,
    pub peek_len: usize,
    pub max_retries: usize,
    pub attempt: usize,
    pub last_peek_len: usize,
}

/// What the owner of the connection is to do next.
pub enum SniffStep {
    /// Look at up to `len` bytes.
    Peek { len: usize },
    /// Wait until more than `seen` of the first `len` bytes are there.
    AwaitGrowth { len: usize, seen: usize },
    Found(String),
    GiveUp,
}

/// The view of [`SniffStep`].
pub enum Step {
    Peek { len: int },
    AwaitGrowth { len: int, seen: int },
    Found(Seq<char>),
    GiveUp,
}

impl View for SniffStep {
    type V = Step;

    open spec fn view(&self) -> Step {
        match *self {
            SniffStep::Peek { len } => Step::Peek { len: len as int },
            SniffStep::AwaitGrowth { len, seen } => Step::AwaitGrowth {
                len: len as int,
                seen: seen as int,
            },
            SniffStep::Found(host) => Step::Found(host@),
            SniffStep::GiveUp => Step::GiveUp,
        }
    }
}

pub open spec fn at_least_one(n: int) -> int {
    if n < 1 {
        1
    } else {
        n
    }
}

pub open spec fn smaller(a: int, b: int) -> int {
    if a <= b {
        a
    } else {
        b
    }
}

fn clamp_len(n: usize, max: usize) -> (r: usize)
    requires
        max >= 1,
    ensures
        r == smaller(at_least_one(n as int), max as int),
{
    if n < 1 {
        1
    } else if n <= max {
        n
    } else {
        max
    }
}

impl SniffRun {
    /// The look is not empty, not beyond the limit, and within the tries.
    pub open spec fn wf(self) -> bool {
        &&& 1 <= self.peek_len <= self.max_len
        &&& self.attempt <= self.max_retries
    }

    /// The search at its start: at most the limit of the protocol and that of
    /// all protocols, at first the length that the protocol starts with.
    pub open spec fn starting(limits: SnifferLimits, cfg: SniffConfig) -> SniffRun {
        let max_len = smaller(
            at_least_one(limits.max_len as int),
            at_least_one(cfg.tcp_peek_buffer_size as int),
        );
        SniffRun {
            max_len: max_len as usize,
            peek_len: smaller(at_least_one(limits.peek_len as int), max_len) as usize,
            max_retries: limits.max_retries,
            attempt: 0,
            last_peek_len: 0,
        }
    }

    /// How far the next look goes: twice as far, within the limit.
    pub open spec fn next_len(self) -> int {
        smaller(2 * self.peek_len, self.max_len as int)
    }

    /// What to do after a look that saw `cur_len` bytes and gave `attempt`.
    pub open spec fn after_peek(self, attempt: Attempt, cur_len: int) -> (SniffRun, Step) {
        match attempt {
            Attempt::Matched(host) => (self, Step::Found(host)),
            Attempt::Abort(_) => (self, Step::GiveUp),
            Attempt::NeedMore => if may_retry(
                self.attempt as int,
                self.max_retries as int,
                cur_len,
                self.last_peek_len as int,
            ) {
                let seen = SniffRun { last_peek_len: cur_len as usize, ..self };
                if self.next_len() <= self.peek_len {
                    (seen, Step::GiveUp)
                } else {
                    (seen, Step::AwaitGrowth { len: self.next_len(), seen: cur_len })
                }
            } else {
                (self, Step::GiveUp)
            },
        }
    }

    /// What to do after waiting for more bytes.
    pub open spec fn after_wait(self, grew: bool) -> (SniffRun, Step) {
        if grew {
            (
                SniffRun {
                    peek_len: self.next_len() as usize,
                    attempt: (self.attempt + 1) as usize,
                    ..self
                },
                Step::Peek { len: self.next_len() },
            )
        } else {
            (self, Step::GiveUp)
        }
    }

    /// Starts a search. The first step is to look at `peek_len` bytes.
    pub fn start<E: Sniffer>(engine: &E, cfg: &SniffConfig) -> (r: SniffRun)
        ensures
            r == SniffRun::starting(engine.limits(), *cfg),
            r.wf(),
            r.max_len <= at_least_one(cfg.tcp_peek_buffer_size as int),
    {
        let hard_cap: usize = if cfg.tcp_peek_buffer_size < 1 {
            1
        } else {
            cfg.tcp_peek_buffer_size
        };
        let max_len = clamp_len(engine.max_peek_len(), hard_cap);
        let peek_len = clamp_len(engine.initial_peek_len(), max_len);
        SniffRun {
            max_len,
            peek_len,
            max_retries: engine.max_retries(),
            attempt: 0,
            last_peek_len: 0,
        }
    }

    /// Judges the bytes that a look showed.
    pub fn on_peek<E: Sniffer>(&mut self, engine: &E, buf: &[u8]) -> (r: SniffStep)
        requires
            old(self).wf(),
        ensures
            (*final(self), r@) == old(self).after_peek(
                engine.attempt(buf@, old(self).max_len as int),
                buf@.len() as int,
            ),
            final(self).wf(),
    {
        match engine.classify(buf, self.max_len) {
            SniffAttempt::Matched(host) => SniffStep::Found(host),
            SniffAttempt::Abort(_) => SniffStep::GiveUp,
            SniffAttempt::NeedMore => {
                let cur_len = buf.len();
                if !can_retry(self.attempt, self.max_retries, cur_len, self.last_peek_len) {
                    return SniffStep::GiveUp;
                }
                self.last_peek_len = cur_len;
                let len: usize = if self.peek_len >= self.max_len - self.peek_len {
                    self.max_len
                } else {
                    2 * self.peek_len
                };
                if len <= self.peek_len {
                    SniffStep::GiveUp
                } else {
                    SniffStep::AwaitGrowth { len, seen: cur_len }
                }
            },
        }
    }

    /// Goes on after waiting for more bytes, which came or did not. Only a search
    /// that was told to wait is asked.
    pub fn on_wait(&mut self, grew: bool) -> (r: SniffStep)
        requires
            old(self).wf(),
            old(self).attempt < old(self).max_retries,
        ensures
            (*final(self), r@) == old(self).after_wait(grew),
            final(self).wf(),
    {
        if !grew {
            return SniffStep::GiveUp;
        }
        let len: usize = if self.peek_len >= self.max_len - self.peek_len {
            self.max_len
        } else {
            2 * self.peek_len
        };
        self.peek_len = len;
        self.attempt = self.attempt + 1;
        SniffStep::Peek { len }
    }
}

/// A search waits only while tries are left, and then looks further than before,
/// never beyond its limit.
pub proof fn each_wait_looks_further(run: SniffRun, attempt: Attempt, cur_len: int)
    requires
        run.wf(),
    ensures
        run.after_peek(attempt, cur_len).1 matches Step::AwaitGrowth { len, seen } ==> {
            &&& run.peek_len < len <= run.max_len
            &&& seen == cur_len
            &&& run.attempt < run.max_retries
            &&& run.after_peek(attempt, cur_len).0.next_len() == len
        },
{
}

/// Each round uses up one try, so a search makes at most `max_retries + 1` looks.
pub proof fn a_round_uses_up_a_try(run: SniffRun, grew: bool)
    requires
        run.wf(),
        run.attempt < run.max_retries,
        run.peek_len < run.max_len,
    ensures
        run.after_wait(grew).1 matches Step::Peek { len } ==> {
            &&& run.after_wait(grew).0.attempt == run.attempt + 1
            &&& run.after_wait(grew).0.wf()
            &&& run.peek_len < len == run.after_wait(grew).0.peek_len
        },
        !grew ==> run.after_wait(grew).1 is GiveUp,
{
}

// ---------------------------------------------------------------------------
// The sniffers of a configuration
// ---------------------------------------------------------------------------

/// A sniffer for TCP connections.
pub enum TcpSniffer {
    Tls(TlsSniffer),
    Http(HttpSniffer),
}

impl Sniffer for TcpSniffer {
    open spec fn engine_name(&self) -> Seq<char> {
        match self {
            TcpSniffer::Tls(s) => s.engine_name(),
            TcpSniffer::Http(s) => s.engine_name(),
        }
    }

    open spec fn limits(&self) -> SnifferLimits {
        match self {
            TcpSniffer::Tls(s) => s.limits(),
            TcpSniffer::Http(s) => s.limits(),
        }
    }

    open spec fn attempt(&self, buf: Seq<u8>, max_len: int) -> Attempt {
        match self {
            TcpSniffer::Tls(s) => s.attempt(buf, max_len),
            TcpSniffer::Http(s) => s.attempt(buf, max_len),
        }
    }

    open spec fn error_reason(&self, err: SniffError) -> Seq<char> {
        match self {
            TcpSniffer::Tls(s) => s.error_reason(err),
            TcpSniffer::Http(s) => s.error_reason(err),
        }
    }

    fn name(&self) -> (r: &'static str) {
        match self {
            TcpSniffer::Tls(s) => s.name(),
            TcpSniffer::Http(s) => s.name(),
        }
    }

    fn initial_peek_len(&self) -> (r: usize) {
        match self {
            TcpSniffer::Tls(s) => s.initial_peek_len(),
            TcpSniffer::Http(s) => s.initial_peek_len(),
        }
    }

    fn max_peek_len(&self) -> (r: usize) {
        match self {
            TcpSniffer::Tls(s) => s.max_peek_len(),
            TcpSniffer::Http(s) => s.max_peek_len(),
        }
    }

    fn max_retries(&self) -> (r: usize) {
        match self {
            TcpSniffer::Tls(s) => s.max_retries(),
            TcpSniffer::Http(s) => s.max_retries(),
        }
    }

    fn wait_more_duration(&self) -> (r: Duration) {
        match self {
            TcpSniffer::Tls(s) => s.wait_more_duration(),
            TcpSniffer::Http(s) => s.wait_more_duration(),
        }
    }

    fn timeout_duration(&self) -> (r: Duration) {
        match self {
            TcpSniffer::Tls(s) => s.timeout_duration(),
            TcpSniffer::Http(s) => s.timeout_duration(),
        }
    }

    fn classify(&self, buf: &[u8], max_len: usize) -> (r: SniffAttempt) {
        match self {
            TcpSniffer::Tls(s) => s.classify(buf, max_len),
            TcpSniffer::Http(s) => s.classify(buf, max_len),
        }
    }

    fn map_error_reason(&self, err: SniffError) -> (r: &'static str) {
        match self {
            TcpSniffer::Tls(s) => s.map_error_reason(err),
            TcpSniffer::Http(s) => s.map_error_reason(err),
        }
    }
}

/// The limits that a configuration sets for TLS.
pub open spec fn tls_limits(c: &Config) -> SnifferLimits {
    limits_of(
        c.tls_sniff_peek_len,
        c.tls_sniff_max_len,
        c.tls_sniff_max_retries,
        c.tls_sniff_wait_more_ms,
        c.tls_sniff_timeout_ms,
    )
}

/// The limits that a configuration sets for HTTP.
pub open spec fn http_limits(c: &Config) -> SnifferLimits {
    limits_of(
        c.http_sniff_peek_len,
        c.http_sniff_max_len,
        c.http_sniff_max_retries,
        c.http_sniff_wait_more_ms,
        c.http_sniff_timeout_ms,
    )
}

/// The sniffers for TCP that a configuration switches on: TLS before HTTP.
pub fn build_sniffers(config: &Config) -> (r: Vec<TcpSniffer>)
    ensures
        r@.len() == (if config.sniff_tls_sni {
            1int
        } else {
            0
        }) + (if config.sniff_http_host {
            1int
        } else {
            0
        }),
        config.sniff_tls_sni ==> r@[0] is Tls && r@[0].limits() == tls_limits(config),
        config.sniff_http_host ==> r@.last() is Http && r@.last().limits() == http_limits(config),
{
    let mut sniffers: Vec<TcpSniffer> = Vec::new();
    if config.sniff_tls_sni {
        sniffers.push(
            TcpSniffer::Tls(
                TlsSniffer::new(
                    config.tls_sniff_peek_len,
                    config.tls_sniff_max_len,
                    config.tls_sniff_max_retries,
                    config.tls_sniff_wait_more_ms,
                    config.tls_sniff_timeout_ms,
                ),
            ),
        );
    }
    if config.sniff_http_host {
        sniffers.push(
            TcpSniffer::Http(
                HttpSniffer::new(
                    config.http_sniff_peek_len,
                    config.http_sniff_max_len,
                    config.http_sniff_max_retries,
                    config.http_sniff_wait_more_ms,
                    config.http_sniff_timeout_ms,
                ),
            ),
        );
    }
    sniffers
}

/// The sniffers for UDP that a configuration switches on.
pub fn build_udp_sniffers(config: &Config) -> (r: Vec<QuicSniUdpSniffer>)
    ensures
        r@.len() == (if config.sniff_quic_sni {
            1int
        } else {
            0
        }),
{
    let mut sniffers: Vec<QuicSniUdpSniffer> = Vec::new();
    if config.sniff_quic_sni {
        sniffers.push(QuicSniUdpSniffer);
    }
    sniffers
}

/// A label of a host name, written out: 1 to 63 letters, digits and hyphens, no
/// hyphen first or last.
pub open spec fn is_host_label(l: Seq<char>) -> bool {
    &&& 0 < l.len() < 64
    &&& forall|i: int|
        0 <= i < l.len() ==> {
            let c = #[trigger] l[i];
            '0' <= c <= '9' || 'A' <= c <= 'Z' || 'a' <= c <= 'z' || (c == '-' && 0 < i < l.len() - 1)
        }
}

/// A host name is labels with dots between them, not more than 253 characters
/// long, that hold a letter. Every text is such labels, or pieces that are none.
pub proof fn host_names_are_labels(labels: Seq<Seq<char>>)
    requires
        labels.len() > 0,
        forall|i: int| 0 <= i < labels.len() ==> !(#[trigger] labels[i]).contains('.'),
    ensures
        ({
            let host = text::joined(labels, seq!['.']);
            is_hostname(host) <==> {
                &&& host.len() <= 253
                &&& forall|i: int| 0 <= i < labels.len() ==> is_host_label(#[trigger] labels[i])
                &&& exists|i: int| {
                    &&& 0 <= i < host.len()
                    &&& ('A' <= #[trigger] host[i] <= 'Z' || 'a' <= host[i] <= 'z')
                }
            }
        }),
{
    let host = text::joined(labels, seq!['.']);
    let dot = seq!['.'];
    assert(dot.last() == '.');
    text::splitting_undoes_joining(labels, dot);
    assert forall|i: int| 0 <= i < labels.len() implies is_valid_label(#[trigger] labels[i])
        == is_host_label(labels[i]) by {
        let l = labels[i];
        if is_valid_label(l) {
            assert forall|j: int| 0 <= j < l.len() implies {
                let c = #[trigger] l[j];
                '0' <= c <= '9' || 'A' <= c <= 'Z' || 'a' <= c <= 'z' || (c == '-' && 0 < j < l.len() - 1)
            } by {
                assert(is_label_char(l[j]));
            }
        }
        if is_host_label(l) {
            assert(l[0] != '-');
            assert(l.last() == l[l.len() - 1]);
            assert forall|j: int| 0 <= j < l.len() implies is_label_char(#[trigger] l[j]) by {}
        }
    }
    if is_hostname(host) {
        let i = choose|i: int| 0 <= i < host.len() && text::is_ascii_alpha(#[trigger] host[i]);
        assert('A' <= host[i] <= 'Z' || 'a' <= host[i] <= 'z');
    }
    if exists|i: int|
        0 <= i < host.len() && ('A' <= #[trigger] host[i] <= 'Z' || 'a' <= host[i] <= 'z') {
        let i = choose|i: int|
            0 <= i < host.len() && ('A' <= #[trigger] host[i] <= 'Z' || 'a' <= host[i] <= 'z');
        assert(text::is_ascii_alpha(host[i]));
    }
}

// ---------------------------------------------------------------------------
// How far a search goes
// ---------------------------------------------------------------------------

/// A search starts with a look of the length that the protocol starts with, and never
/// looks further than the protocol and the buffer allow; each length is at least one.
pub proof fn searches_start_within_limits(limits: SnifferLimits, cfg: SniffConfig)
    ensures
        ({
            let run = SniffRun::starting(limits, cfg);
            &&& 1 <= run.peek_len <= run.max_len
            &&& limits.max_len >= 1 ==> run.max_len <= limits.max_len
            &&& cfg.tcp_peek_buffer_size >= 1 ==> run.max_len <= cfg.tcp_peek_buffer_size
            &&& run.max_len == 1 || run.max_len == limits.max_len || run.max_len
                == cfg.tcp_peek_buffer_size
            &&& limits.peek_len >= 1 && limits.peek_len <= run.max_len ==> run.peek_len
                == limits.peek_len
            &&& limits.peek_len > run.max_len ==> run.peek_len == run.max_len
            &&& run.attempt == 0 && run.last_peek_len == 0
            &&& run.max_retries == limits.max_retries
        }),
{
}

/// A look that gives the host ends the search with it, and a look that shows another
/// protocol gives it up. A look that shows too little goes on exactly when tries are
/// left, it saw more than the look before, and a longer look is allowed: then it waits
/// for more bytes than it saw, to look twice as far or as far as is allowed.
pub proof fn searches_go_on_while_there_is_hope(
    run: SniffRun,
    host: Seq<char>,
    err: SniffError,
    cur_len: int,
)
    requires
        run.wf(),
        cur_len >= 0,
    ensures
        run.after_peek(Attempt::Matched(host), cur_len).1 == Step::Found(host),
        run.after_peek(Attempt::Abort(err), cur_len).1 == Step::GiveUp,
        ({
            let step = run.after_peek(Attempt::NeedMore, cur_len).1;
            let goes_on = run.attempt < run.max_retries && cur_len > run.last_peek_len && run.peek_len
                < run.max_len;
            &&& !goes_on ==> step == Step::GiveUp
            &&& goes_on && 2 * run.peek_len <= run.max_len ==> step == (Step::AwaitGrowth {
                len: 2 * run.peek_len,
                seen: cur_len,
            })
            &&& goes_on && 2 * run.peek_len > run.max_len ==> step == (Step::AwaitGrowth {
                len: run.max_len as int,
                seen: cur_len,
            })
        }),
{
}

/// The limits of a protocol are as they were set, but that no wait is shorter than one
/// millisecond.
pub proof fn limits_are_as_set(peek: usize, max: usize, retries: usize, wait: u64, timeout: u64)
    ensures
        ({
            let l = limits_of(peek, max, retries, wait, timeout);
            &&& l.peek_len == peek && l.max_len == max && l.max_retries == retries
            &&& wait >= 1 ==> l.wait_more_ms == wait
            &&& wait == 0 ==> l.wait_more_ms == 1
            &&& timeout >= 1 ==> l.timeout_ms == timeout
            &&& timeout == 0 ==> l.timeout_ms == 1
        }),
{
}

} // verus!
