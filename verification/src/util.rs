//! Domain names, lists of networks, hexadecimal text and the end of a relay.

use crate::net;
use crate::net::{IpAddr, IpNet, Ipv4Addr, Ipv6Addr, SocketAddr};
use crate::text;
use crate::time;
use core::time::Duration;
use vstd::prelude::*;

pub use crate::trie::build_ip_tries;

verus! {

/// The size of the buffer that datagrams are received in.
pub const UDP_RECV_BUF_SIZE: usize = 65536;

// ---------------------------------------------------------------------------
// Domain names
// ---------------------------------------------------------------------------

pub open spec fn is_dot(c: char) -> bool {
    c == '.'
}

/// A domain name in the form in which names are compared: without dots at its
/// ends, in lower case.
pub open spec fn canonical(domain: Seq<char>) -> Seq<char> {
    text::lowered(
        text::trimmed_end(
            text::trimmed_start(domain, |c: char| is_dot(c)),
            |c: char| is_dot(c),
        ),
    )
}

/// `domain` is `suffix` or a name below it.
pub open spec fn is_at_or_below(domain: Seq<char>, suffix: Seq<char>) -> bool {
    ||| domain == suffix
    ||| {
        &&& text::ends_with_seq(domain, suffix)
        &&& suffix.len() < domain.len()
        &&& domain[domain.len() - suffix.len() - 1] == '.'
    }
}

/// `domain` is `suffix` or a name below it, however the two are written.
pub open spec fn matches_suffix(domain: Seq<char>, suffix: Seq<char>) -> bool {
    is_at_or_below(canonical(domain), canonical(suffix))
}

/// A domain name in the form in which names are compared.
pub fn canonical_chars(s: &[char]) -> (r: Vec<char>)
    ensures
        r@ == canonical(s@),
{
    let ghost dot = |c: char| is_dot(c);
    let mut from: usize = 0;
    assert(s@.skip(0) =~= s@);
    while from < s.len() && s[from] == '.'
        invariant
            dot == (|c: char| is_dot(c)),
            from <= s@.len(),
            text::trimmed_start(s@, dot) == text::trimmed_start(s@.skip(from as int), dot),
        decreases s@.len() - from,
    {
        assert(s@.skip(from as int).drop_first() =~= s@.skip(from + 1));
        from += 1;
    }
    assert(text::trimmed_start(s@, dot) == s@.skip(from as int));
    let mut to: usize = s.len();
    assert(s@.subrange(from as int, to as int) =~= s@.skip(from as int));
    while from < to && s[to - 1] == '.'
        invariant
            dot == (|c: char| is_dot(c)),
            from <= to <= s@.len(),
            text::trimmed_end(text::trimmed_start(s@, dot), dot) == text::trimmed_end(
                s@.subrange(from as int, to as int),
                dot,
            ),
        decreases to,
    {
        assert(s@.subrange(from as int, to as int).drop_last() =~= s@.subrange(
            from as int,
            to - 1,
        ));
        to -= 1;
    }
    let bare = text::slice_chars(s, from, to);
    text::lower_chars(bare.as_slice())
}

/// A domain name without dots at its ends, in lower case.
pub fn canonical_domain(domain: &str) -> (r: String)
    ensures
        r@ == canonical(domain@),
{
    let chars = text::chars_of(domain);
    let canon = canonical_chars(chars.as_slice());
    text::string_of(canon.as_slice())
}

/// Whether a canonical name is another one or a name below it.
pub fn chars_at_or_below(domain: &[char], suffix: &[char]) -> (r: bool)
    ensures
        r == is_at_or_below(domain@, suffix@),
{
    if text::chars_eq(domain, suffix) {
        return true;
    }
    suffix.len() < domain.len() && domain[domain.len() - suffix.len() - 1] == '.'
        && text::chars_end_with(domain, suffix)
}

/// Whether `domain` is `suffix` or a name below it. Dots at the ends and the case
/// of letters do not count.
pub fn domain_matches_suffix(domain: &str, suffix: &str) -> (r: bool)
    ensures
        r == matches_suffix(domain@, suffix@),
{
    let domain = text::chars_of(domain);
    let suffix = text::chars_of(suffix);
    let d = canonical_chars(domain.as_slice());
    let s = canonical_chars(suffix.as_slice());
    chars_at_or_below(d.as_slice(), s.as_slice())
}

proof fn lemma_trimmed_start(s: Seq<char>, drop: spec_fn(char) -> bool)
    ensures
        ({
            let t = text::trimmed_start(s, drop);
            &&& t.len() <= s.len()
            &&& t == s.skip(s.len() - t.len())
            &&& t.len() > 0 ==> !drop(t[0])
        }),
    decreases s.len(),
{
    if s.len() > 0 && drop(s[0]) {
        lemma_trimmed_start(s.drop_first(), drop);
        let t = text::trimmed_start(s.drop_first(), drop);
        assert(s.drop_first().skip(s.drop_first().len() - t.len()) =~= s.skip(s.len() - t.len()));
    } else {
        assert(s.skip(0) =~= s);
    }
}

proof fn lemma_trimmed_end(s: Seq<char>, drop: spec_fn(char) -> bool)
    ensures
        ({
            let t = text::trimmed_end(s, drop);
            &&& t.len() <= s.len()
            &&& t == s.take(t.len() as int)
            &&& t.len() > 0 ==> !drop(t.last())
        }),
    decreases s.len(),
{
    if s.len() > 0 && drop(s.last()) {
        lemma_trimmed_end(s.drop_last(), drop);
        let t = text::trimmed_end(s.drop_last(), drop);
        assert(s.drop_last().take(t.len() as int) =~= s.take(t.len() as int));
    } else {
        assert(s.take(s.len() as int) =~= s);
    }
}

/// A canonical name has no dot at either end and no capital.
pub proof fn canonical_form(domain: Seq<char>)
    ensures
        canonical(domain).len() > 0 ==> canonical(domain)[0] != '.' && canonical(domain).last()
            != '.',
        text::lowered(canonical(domain)) == canonical(domain),
{
    let dot = |c: char| is_dot(c);
    let a = text::trimmed_start(domain, dot);
    let b = text::trimmed_end(a, dot);
    lemma_trimmed_start(domain, dot);
    lemma_trimmed_end(a, dot);
    text::lowered_idempotent(b);
    if b.len() > 0 {
        assert(b[0] == a[0]);
        assert(canonical(domain)[0] == text::lower(b[0]));
        assert(canonical(domain).last() == text::lower(b.last()));
    }
}

/// Bringing a name into canonical form twice is bringing it there once.
pub proof fn canonical_idempotent(domain: Seq<char>)
    ensures
        canonical(canonical(domain)) == canonical(domain),
{
    canonical_form(domain);
}

/// Every name matches itself.
pub proof fn suffix_match_reflexive(domain: Seq<char>)
    ensures
        matches_suffix(domain, domain),
{
}

/// How the two names are written makes no difference.
pub proof fn suffix_match_ignores_spelling(domain: Seq<char>, suffix: Seq<char>)
    ensures
        matches_suffix(canonical(domain), canonical(suffix)) == matches_suffix(domain, suffix),
{
    canonical_idempotent(domain);
    canonical_idempotent(suffix);
}

/// A name with labels put before it matches it.
pub proof fn subdomain_matches(sub: Seq<char>, suffix: Seq<char>)
    requires
        canonical(sub + seq!['.'] + suffix) == sub + seq!['.'] + suffix,
        canonical(suffix) == suffix,
    ensures
        matches_suffix(sub + seq!['.'] + suffix, suffix),
{
    let d = sub + seq!['.'] + suffix;
    assert(d.subrange(d.len() - suffix.len(), d.len() as int) =~= suffix);
}

/// A name that only ends in the same letters, with no dot before them, does not
/// match.
pub proof fn partial_label_does_not_match(sub: Seq<char>, suffix: Seq<char>)
    requires
        sub.len() > 0,
        sub.last() != '.',
        canonical(sub + suffix) == sub + suffix,
        canonical(suffix) == suffix,
    ensures
        !matches_suffix(sub + suffix, suffix),
{
    let d = sub + suffix;
    assert(d[d.len() - suffix.len() - 1] == sub.last());
}

/// Nothing but the empty name matches the empty suffix.
pub proof fn empty_suffix_matches_only_empty(domain: Seq<char>, suffix: Seq<char>)
    requires
        canonical(suffix).len() == 0,
    ensures
        matches_suffix(domain, suffix) <==> canonical(domain).len() == 0,
{
    canonical_form(domain);
    assert(canonical(suffix) =~= Seq::empty());
    if canonical(domain).len() == 0 {
        assert(canonical(domain) =~= Seq::empty());
    }
}

/// Being at or below a name is transitive.
pub proof fn suffix_match_transitive(a: Seq<char>, b: Seq<char>, c: Seq<char>)
    requires
        matches_suffix(a, b),
        matches_suffix(b, c),
    ensures
        matches_suffix(a, c),
{
    let x = canonical(a);
    let y = canonical(b);
    let z = canonical(c);
    if x != y && y != z {
        assert(x.subrange(x.len() - y.len(), x.len() as int) == y);
        assert(y.subrange(y.len() - z.len(), y.len() as int) == z);
        assert(x.subrange(x.len() - z.len(), x.len() as int) =~= z);
        assert(x[x.len() - z.len() - 1] == y[y.len() - z.len() - 1]);
    }
}

// ---------------------------------------------------------------------------
// Hexadecimal text
// ---------------------------------------------------------------------------

/// The digit for a number below sixteen.
pub open spec fn hex_digit(n: int) -> char {
    if n < 10 {
        ('0' as u32 + n) as char
    } else {
        ('a' as u32 + n - 10) as char
    }
}

/// Two lower-case digits for each byte.
pub open spec fn hex_of(data: Seq<u8>) -> Seq<char> {
    Seq::new(
        2 * data.len(),
        |i: int|
            hex_digit(
                if i % 2 == 0 {
                    data[i / 2] / 16
                } else {
                    data[i / 2] % 16
                } as int,
            ),
    )
}

fn push_hex_digit(s: &mut String, n: u8)
    requires
        n < 16,
    ensures
        final(s)@ == old(s)@.push(hex_digit(n as int)),
{
    let c: char = if n < 10 {
        (48 + n) as char
    } else {
        (97 + (n - 10)) as char
    };
    s.push(c);
}

/// Bytes in hexadecimal, two lower-case digits each.
pub fn hex_encode(data: &[u8]) -> (r: String)
    ensures
        r@ == hex_of(data@),
{
    let mut s = String::new();
    let mut i: usize = 0;
    assert(s@ =~= hex_of(data@.take(0)));
    while i < data.len()
        invariant
            i <= data@.len(),
            s@ == hex_of(data@.take(i as int)),
        decreases data@.len() - i,
    {
        push_hex_digit(&mut s, data[i] / 16);
        push_hex_digit(&mut s, data[i] % 16);
        assert(s@ =~= hex_of(data@.take(i + 1)));
        i += 1;
    }
    assert(data@.take(i as int) =~= data@);
    s
}

// ---------------------------------------------------------------------------
// Networks in text
// ---------------------------------------------------------------------------

/// Why an entry of a list of networks is refused.
#[derive(Debug, Clone, Copy, PartialEq, Eq, Structural)]
pub enum NetTextError {
    Empty,
    Invalid,
}

/// The network that a text denotes, by what it reads as: a network if it is one,
/// else the network of the one address.
pub open spec fn net_or_host(net: Option<IpNet>, ip: Option<IpAddr>) -> Result<
    IpNet,
    NetTextError,
> {
    match (net, ip) {
        (Some(n), _) => Ok(n),
        (None, Some(ip)) => Ok(net::host_net_of(ip)),
        (None, None) => Err(NetTextError::Invalid),
    }
}

/// The network, or the network of the one address, or an error.
pub fn choose_net(net: Option<IpNet>, ip: Option<IpAddr>) -> (r: Result<IpNet, NetTextError>)
    ensures
        r == net_or_host(net, ip),
{
    match net {
        Some(n) => Ok(n),
        None => match ip {
            Some(ip) => Ok(net::host_net(ip)),
            None => Err(NetTextError::Invalid),
        },
    }
}

/// The network that a text denotes.
pub open spec fn net_of_text(s: Seq<char>) -> Result<IpNet, NetTextError> {
    net_or_host(net::net_in_text(s), net::ip_in_text(s))
}

/// A text is an IPv4 network in CIDR notation, or an IPv4 address, which is the
/// network of that one address.
pub open spec fn is_net_text(s: Seq<char>, n: IpNet) -> bool {
    match n.addr {
        IpAddr::V4(a) => net::is_v4_net_text(s, a, n.prefix_len) || (n.prefix_len == 32
            && net::is_v4_text(s, a)),
        IpAddr::V6(_) => false,
    }
}

/// A text is no IPv4 network and no IPv4 address.
pub open spec fn is_no_net_text(s: Seq<char>) -> bool {
    forall|n: IpNet| !(#[trigger] is_net_text(s, n))
}

proof fn lemma_no_slash(s: Seq<char>, a: Ipv4Addr)
    requires
        net::is_v4_text(s, a),
    ensures
        s.len() > 0,
        !s.contains('/'),
{
    let (w, x, y, z) = choose|w: Seq<char>, x: Seq<char>, y: Seq<char>, z: Seq<char>| #[trigger]
        net::is_v4_of(s, a, w, x, y, z);
    let b = w + seq!['.'];
    let c = b + x + seq!['.'];
    let d = c + y + seq!['.'];
    if s.contains('/') {
        let i = choose|i: int| 0 <= i < s.len() && s[i] == '/';
        if i < w.len() {
            assert(s[i] == w[i]);
        } else if b.len() <= i < b.len() + x.len() {
            assert(s[i] == x[i - b.len()]);
        } else if c.len() <= i < c.len() + y.len() {
            assert(s[i] == y[i - c.len()]);
        } else if d.len() <= i {
            assert(s[i] == z[i - d.len()]);
        }
    }
}

/// A network in CIDR notation, or one address.
pub fn parse_ip_or_cidr(s: &str) -> (r: Result<IpNet, NetTextError>)
    ensures
        r == net_of_text(s@),
        r matches Ok(n) ==> n.wf(),
        forall|n: IpNet| #[trigger] is_net_text(s@, n) ==> r == Ok::<IpNet, NetTextError>(n),
{
    let net = net::parse_net(s);
    let ip = net::parse_ip(s);
    proof {
        assert forall|n: IpNet| #[trigger] is_net_text(s@, n) implies net_or_host(net, ip) == Ok::<
            IpNet,
            NetTextError,
        >(n) by {
            if let IpAddr::V4(a) = n.addr {
                if net::is_v4_net_text(s@, a, n.prefix_len) {
                } else {
                    lemma_no_slash(s@, a);
                }
            }
        }
    }
    choose_net(net, ip)
}

/// The network that an entry of a list denotes, white space around it apart.
pub open spec fn net_of_entry(raw: Seq<char>) -> Result<IpNet, NetTextError> {
    if text::trimmed(raw).len() == 0 {
        Err(NetTextError::Empty)
    } else {
        net_of_text(text::trimmed(raw))
    }
}

/// The entry `index` of a list is refused.
#[derive(Debug, Clone, Copy, PartialEq, Eq, Structural)]
pub struct NetListError {
    pub index: usize,
    pub error: NetTextError,
}

proof fn lemma_empty_is_no_net(s: Seq<char>)
    requires
        s.len() == 0,
    ensures
        is_no_net_text(s),
{
    assert forall|n: IpNet| !(#[trigger] is_net_text(s, n)) by {
        if let IpAddr::V4(a) = n.addr {
            if net::is_v4_text(s, a) {
                lemma_no_slash(s, a);
            }
        }
    }
}

/// The networks of a list, one for each entry, or the first entry that is none.
pub fn parse_ip_net_list(list: &[String]) -> (r: Result<Vec<IpNet>, NetListError>)
    ensures
        match r {
            Ok(nets) => {
                &&& nets@.len() == list@.len()
                &&& forall|i: int|
                    0 <= i < list@.len() ==> net_of_entry((#[trigger] list@[i])@) == Ok::<
                        IpNet,
                        NetTextError,
                    >(nets@[i])
                &&& forall|i: int| 0 <= i < nets@.len() ==> (#[trigger] nets@[i]).wf()
                &&& forall|i: int, n: IpNet|
                    0 <= i < list@.len() && #[trigger] is_net_text(text::trimmed(list@[i]@), n)
                        ==> nets@[i] == n
            },
            Err(e) => {
                &&& e.index < list@.len()
                &&& is_no_net_text(text::trimmed(list@[e.index as int]@))
                &&& net_of_entry(list@[e.index as int]@) == Err::<IpNet, NetTextError>(e.error)
                &&& forall|i: int| 0 <= i < e.index ==> net_of_entry((#[trigger] list@[i])@) is Ok
            },
        },
{
    let mut nets: Vec<IpNet> = Vec::new();
    let mut i: usize = 0;
    while i < list.len()
        invariant
            i <= list@.len(),
            nets@.len() == i,
            forall|j: int|
                0 <= j < i ==> net_of_entry((#[trigger] list@[j])@) == Ok::<IpNet, NetTextError>(
                    nets@[j],
                ),
            forall|j: int| 0 <= j < i ==> (#[trigger] nets@[j]).wf(),
            forall|j: int, n: IpNet|
                0 <= j < i && #[trigger] is_net_text(text::trimmed(list@[j]@), n) ==> nets@[j] == n,
        decreases list@.len() - i,
    {
        let raw = text::chars_of(list[i].as_str());
        let trimmed = text::trim_chars(raw.as_slice());
        if trimmed.len() == 0 {
            proof {
                lemma_empty_is_no_net(trimmed@);
            }
            return Err(NetListError { index: i, error: NetTextError::Empty });
        }
        let entry = text::string_of(trimmed.as_slice());
        match parse_ip_or_cidr(entry.as_str()) {
            Ok(net) => {
                nets.push(net);
            },
            Err(error) => {
                return Err(NetListError { index: i, error });
            },
        }
        i += 1;
    }
    Ok(nets)
}

/// The unspecified address, port 0, of the family of an address.
pub open spec fn unspecified_for(addr: SocketAddr) -> SocketAddr {
    match addr {
        SocketAddr::V4(_) => SocketAddr::spec_new(IpAddr::V4(Ipv4Addr { bits: 0 }), 0),
        SocketAddr::V6(_) => SocketAddr::spec_new(IpAddr::V6(Ipv6Addr { bits: 0 }), 0),
    }
}

/// The address to bind a socket to that shall reach `addr`: any address of its
/// family, any port.
pub fn unspecified_addr_for(addr: SocketAddr) -> (r: SocketAddr)
    ensures
        r == unspecified_for(addr),
{
    match addr {
        SocketAddr::V4(_) => SocketAddr::new(IpAddr::V4(Ipv4Addr { bits: 0 }), 0),
        SocketAddr::V6(_) => SocketAddr::new(IpAddr::V6(Ipv6Addr { bits: 0 }), 0),
    }
}

// ---------------------------------------------------------------------------
// The clock
// ---------------------------------------------------------------------------

/// Seconds since the epoch, by `std::time::SystemTime::now`; 0 when the clock
/// stands before it. Two calls may differ in either direction.
#[verifier::external_body]
pub fn now_secs() -> (r: u64) {
    std::time::SystemTime::now().duration_since(std::time::UNIX_EPOCH).unwrap_or_default().as_secs()
}

// ---------------------------------------------------------------------------
// The end of a relay
// ---------------------------------------------------------------------------

/// How long a half-closed connection may stay silent. No seconds mean that it is
/// not watched, and not that it is given up at once.
pub fn half_close_grace(secs: u64) -> (r: Option<Duration>)
    ensures
        r == if secs > 0 {
            Some(time::duration_of_secs(secs))
        } else {
            None::<Duration>
        },
{
    if secs > 0 {
        Some(Duration::from_secs(secs))
    } else {
        None
    }
}

/// How often relays of this process ended otherwise than by both sides closing.
/// The counts wrap around.
#[derive(Debug, Clone, Copy)]
pub struct RelayCounters {
    pub half_close_timeouts: u64,
    pub copy_errors: u64,
}

impl RelayCounters {
    pub fn new() -> (r: Self)
        ensures
            r.half_close_timeouts == 0,
            r.copy_errors == 0,
    {
        RelayCounters { half_close_timeouts: 0, copy_errors: 0 }
    }
}

/// How many half-closed sessions were given up.
pub fn tcp_relay_half_close_timeouts(counters: &RelayCounters) -> (r: u64)
    ensures
        r == counters.half_close_timeouts,
{
    counters.half_close_timeouts
}

/// How many sessions ended with an error while bytes were copied.
pub fn tcp_relay_copy_errors(counters: &RelayCounters) -> (r: u64)
    ensures
        r == counters.copy_errors,
{
    counters.copy_errors
}

/// How a relay ends that did not fail.
#[derive(Debug, Clone, Copy, PartialEq, Eq, Structural)]
pub enum RelayEnd {
    /// Both directions came to their end.
    Finished { sent: u64, recv: u64 },
    /// One side had closed its half, and nothing moved for longer than the grace.
    HalfCloseTimeout { silent_secs: u64 },
}

/// The three ways to relay a connection.
#[derive(Debug, Clone, Copy, PartialEq, Eq, Structural)]
pub enum RelayPath {
    /// In the kernel, where no one sees the bytes move.
    Splice,
    /// Copying until both sides are done.
    Copy,
    /// Copying, and watching for silence after a half-close.
    WatchedCopy { grace_secs: u64 },
}

pub open spec fn relay_path_of(splice: bool, grace_secs: u64) -> RelayPath {
    if splice {
        RelayPath::Splice
    } else if grace_secs == 0 {
        RelayPath::Copy
    } else {
        RelayPath::WatchedCopy { grace_secs }
    }
}

/// The way to relay a connection. Splicing is never watched; a grace of no
/// seconds switches the watch off.
pub fn relay_path(splice: bool, grace_secs: u64) -> (r: RelayPath)
    ensures
        r == relay_path_of(splice, grace_secs),
{
    if splice {
        RelayPath::Splice
    } else if grace_secs == 0 {
        RelayPath::Copy
    } else {
        RelayPath::WatchedCopy { grace_secs }
    }
}

/// What stopped a relay.
#[derive(Debug, Clone, Copy, PartialEq, Eq, Structural)]
pub enum RelayStop {
    /// The copy ran to its end.
    Done { sent: u64, recv: u64 },
    /// The copy failed.
    Failed,
    /// The watch found the session silent, for so many seconds if that is known.
    Silent { quiet_secs: Option<u64> },
}

/// What becomes of a relay: how it ended, or `None` when it failed, and whether
/// the two sockets are reset rather than closed.
#[derive(Debug, Clone, Copy, PartialEq, Eq, Structural)]
pub struct RelayVerdict {
    pub end: Option<RelayEnd>,
    pub reset: bool,
}

/// The seconds of silence to report: as measured, or the whole grace.
pub open spec fn silent_secs(path: RelayPath, quiet_secs: Option<u64>) -> u64 {
    match quiet_secs {
        Some(secs) => secs,
        None => match path {
            RelayPath::WatchedCopy { grace_secs } => grace_secs,
            _ => 0,
        },
    }
}

pub open spec fn verdict_of(path: RelayPath, stop: RelayStop) -> RelayVerdict {
    match stop {
        RelayStop::Done { sent, recv } => RelayVerdict {
            end: Some(RelayEnd::Finished { sent, recv }),
            reset: false,
        },
        RelayStop::Failed => RelayVerdict { end: None, reset: false },
        RelayStop::Silent { quiet_secs } => RelayVerdict {
            end: Some(RelayEnd::HalfCloseTimeout { silent_secs: silent_secs(path, quiet_secs) }),
            reset: true,
        },
    }
}

/// Counts a failed copy.
pub fn count_copy_error(counters: &mut RelayCounters)
    ensures
        final(counters).copy_errors == (old(counters).copy_errors + 1) % 0x1_0000_0000_0000_0000,
        final(counters).half_close_timeouts == old(counters).half_close_timeouts,
{
    counters.copy_errors = counters.copy_errors.wrapping_add(1);
}

/// Decides what becomes of a relay, and counts it. A failure while splicing is
/// not counted among the copy errors. Only a session that fell silent is reset:
/// its peers would not acknowledge an orderly close.
pub fn finish_relay(counters: &mut RelayCounters, path: RelayPath, stop: RelayStop) -> (r:
    RelayVerdict)
    ensures
        r == verdict_of(path, stop),
        final(counters).copy_errors == (old(counters).copy_errors + (if stop is Failed && !(
        path is Splice) {
            1int
        } else {
            0
        })) % 0x1_0000_0000_0000_0000,
        final(counters).half_close_timeouts == (old(counters).half_close_timeouts + (if stop
            is Silent {
            1int
        } else {
            0
        })) % 0x1_0000_0000_0000_0000,
{
    match stop {
        RelayStop::Done { sent, recv } => RelayVerdict {
            end: Some(RelayEnd::Finished { sent, recv }),
            reset: false,
        },
        RelayStop::Failed => {
            match path {
                RelayPath::Splice => {},
                _ => {
                    count_copy_error(counters);
                },
            }
            RelayVerdict { end: None, reset: false }
        },
        RelayStop::Silent { quiet_secs } => {
            counters.half_close_timeouts = counters.half_close_timeouts.wrapping_add(1);
            let silent_secs: u64 = match quiet_secs {
                Some(secs) => secs,
                None => match path {
                    RelayPath::WatchedCopy { grace_secs } => grace_secs,
                    _ => 0,
                },
            };
            RelayVerdict { end: Some(RelayEnd::HalfCloseTimeout { silent_secs }), reset: true }
        },
    }
}

/// A reset is for sessions that fell silent, and for no others.
pub proof fn only_silent_sessions_are_reset(path: RelayPath, stop: RelayStop)
    ensures
        verdict_of(path, stop).reset <==> stop is Silent,
        verdict_of(path, stop).end is None <==> stop is Failed,
{
}

// ---------------------------------------------------------------------------
// Sockets
// ---------------------------------------------------------------------------

/// What the kernel says of a TCP connection.
#[derive(Debug, Clone, Copy, PartialEq, Eq, Structural)]
pub struct TcpInfoExt {
    pub tcpi_state: u8,
    pub tcpi_ca_state: u8,
    pub tcpi_retransmits: u8,
    pub tcpi_probes: u8,
    pub tcpi_backoff: u8,
    pub tcpi_options: u8,
    /// The two window scales.
    pub tcpi_snd_rcv_wscale: u8,
    pub tcpi_delivery_rate_app_limited: u8,
    pub tcpi_rto: u32,
    pub tcpi_ato: u32,
    pub tcpi_snd_mss: u32,
    pub tcpi_rcv_mss: u32,
    pub tcpi_unacked: u32,
    pub tcpi_sacked: u32,
    pub tcpi_lost: u32,
    pub tcpi_retrans: u32,
    pub tcpi_fackets: u32,
    pub tcpi_last_data_sent: u32,
    pub tcpi_last_ack_sent: u32,
    pub tcpi_last_data_recv: u32,
    pub tcpi_last_ack_recv: u32,
    pub tcpi_pmtu: u32,
    pub tcpi_rcv_ssthresh: u32,
    pub tcpi_rtt: u32,
    pub tcpi_rttvar: u32,
    pub tcpi_snd_ssthresh: u32,
    pub tcpi_snd_cwnd: u32,
    pub tcpi_advmss: u32,
    pub tcpi_reordering: u32,
    pub tcpi_rcv_rtt: u32,
    pub tcpi_rcv_space: u32,
    pub tcpi_total_retrans: u32,
    pub tcpi_pacing_rate: u64,
    pub tcpi_max_pacing_rate: u64,
    /// How many bytes were sent and acknowledged.
    pub tcpi_bytes_acked: u64,
    /// How many bytes were received.
    pub tcpi_bytes_received: u64,
}

/// How many bytes the first `n` connections received together.
pub open spec fn total_received(infos: Seq<TcpInfoExt>, n: int) -> int
    decreases n,
{
    if n <= 0 {
        0
    } else {
        total_received(infos, n - 1) + infos[n - 1].tcpi_bytes_received
    }
}

/// How many bytes of the first `n` connections were acknowledged together.
pub open spec fn total_acked(infos: Seq<TcpInfoExt>, n: int) -> int
    decreases n,
{
    if n <= 0 {
        0
    } else {
        total_acked(infos, n - 1) + infos[n - 1].tcpi_bytes_acked
    }
}

proof fn lemma_totals_grow(infos: Seq<TcpInfoExt>, a: int, b: int)
    requires
        0 <= a <= b <= infos.len(),
    ensures
        0 <= total_received(infos, a) <= total_received(infos, b),
        0 <= total_acked(infos, a) <= total_acked(infos, b),
    decreases b,
{
    if a < b {
        lemma_totals_grow(infos, a, b - 1);
    } else if b > 0 {
        lemma_totals_grow(infos, a - 1, b - 1);
    }
}

/// The bytes that connections received and that were acknowledged, each together.
pub fn sum_traffic(infos: &[TcpInfoExt]) -> (r: (u64, u64))
    requires
        total_received(infos@, infos@.len() as int) <= u64::MAX,
        total_acked(infos@, infos@.len() as int) <= u64::MAX,
    ensures
        r.0 == total_received(infos@, infos@.len() as int),
        r.1 == total_acked(infos@, infos@.len() as int),
{
    let mut recv: u64 = 0;
    let mut sent: u64 = 0;
    let mut i: usize = 0;
    while i < infos.len()
        invariant
            i <= infos@.len(),
            total_received(infos@, infos@.len() as int) <= u64::MAX,
            total_acked(infos@, infos@.len() as int) <= u64::MAX,
            recv == total_received(infos@, i as int),
            sent == total_acked(infos@, i as int),
        decreases infos@.len() - i,
    {
        proof {
            lemma_totals_grow(infos@, i + 1, infos@.len() as int);
        }
        recv = recv + infos[i].tcpi_bytes_received;
        sent = sent + infos[i].tcpi_bytes_acked;
        i += 1;
    }
    (recv, sent)
}

/// Whether the number of an error of the system is that of a datagram that is too
/// big, which is `emsgsize` on this machine.
pub fn is_io_emsgsize(os_error: Option<i32>, emsgsize: i32) -> (r: bool)
    ensures
        r == (os_error == Some(emsgsize)),
{
    match os_error {
        Some(code) => code == emsgsize,
        None => false,
    }
}

/// Whether one of the causes of an error is a datagram that is too big. Causes
/// that are no errors of the system have no number.
pub fn is_anyhow_emsgsize(causes: &[Option<i32>], emsgsize: i32) -> (r: bool)
    ensures
        r == causes@.contains(Some(emsgsize)),
{
    let mut i: usize = 0;
    while i < causes.len()
        invariant
            i <= causes@.len(),
            forall|k: int| 0 <= k < i ==> causes@[k] != Some(emsgsize),
        decreases causes@.len() - i,
    {
        if is_io_emsgsize(causes[i], emsgsize) {
            return true;
        }
        i += 1;
    }
    false
}

// ---------------------------------------------------------------------------
// What texts and relays amount to
// ---------------------------------------------------------------------------

/// The value of a lower-case hexadecimal digit.
pub open spec fn digit_value(c: char) -> int {
    if '0' <= c <= '9' {
        c as int - 48
    } else {
        c as int - 87
    }
}

/// Each byte is two hexadecimal digits, the higher one first, in lower case.
pub proof fn hex_digits_are_read_back(data: Seq<u8>, i: int)
    requires
        0 <= i < data.len(),
    ensures
        hex_of(data).len() == 2 * data.len(),
        16 * digit_value(hex_of(data)[2 * i]) + digit_value(hex_of(data)[2 * i + 1]) == data[i],
        '0' <= hex_of(data)[2 * i] <= '9' || 'a' <= hex_of(data)[2 * i] <= 'f',
        '0' <= hex_of(data)[2 * i + 1] <= '9' || 'a' <= hex_of(data)[2 * i + 1] <= 'f',
{
    let h = hex_of(data);
    assert((2 * i) / 2 == i && (2 * i) % 2 == 0);
    assert((2 * i + 1) / 2 == i && (2 * i + 1) % 2 == 1);
    assert(h[2 * i] == hex_digit((data[i] / 16) as int));
    assert(h[2 * i + 1] == hex_digit((data[i] % 16) as int));
}

/// An entry of a list is read without the white space around it, and an entry of
/// white space alone is empty.
pub proof fn entries_are_read_without_space(
    before: Seq<char>,
    entry: Seq<char>,
    behind: Seq<char>,
)
    requires
        text::is_blank(before),
        text::is_blank(behind),
        entry.len() > 0 ==> !text::has_white_space(entry[0]) && !text::has_white_space(entry.last()),
    ensures
        entry.len() > 0 ==> net_of_entry(before + entry + behind) == net_of_text(entry),
        entry.len() == 0 ==> net_of_entry(before + entry + behind) == Err::<IpNet, _>(
            NetTextError::Empty,
        ),
{
    text::trimming_leaves_the_core(before, entry, behind);
}

/// A text that reads as a network is that network, one that reads as an address is the
/// network of that address alone, and any other is refused.
pub proof fn addresses_are_networks_of_one(net: Option<IpNet>, ip: Option<IpAddr>)
    ensures
        net matches Some(n) ==> net_or_host(net, ip) == Ok::<_, NetTextError>(n),
        net is None && ip is None ==> net_or_host(net, ip) == Err::<IpNet, _>(NetTextError::Invalid),
        net is None ==> match ip {
            Some(IpAddr::V4(a)) => net_or_host(net, ip) == Ok::<_, NetTextError>(
                IpNet { addr: IpAddr::V4(a), prefix_len: 32 },
            ),
            Some(IpAddr::V6(a)) => net_or_host(net, ip) == Ok::<_, NetTextError>(
                IpNet { addr: IpAddr::V6(a), prefix_len: 128 },
            ),
            None => true,
        },
{
}

/// A connection is spliced where that is asked for, and is watched only where it is
/// not and there is a grace.
pub proof fn relays_are_watched_for_their_grace(splice: bool, grace: u64)
    ensures
        relay_path_of(splice, grace) == RelayPath::Splice <==> splice,
        relay_path_of(splice, grace) == RelayPath::Copy <==> !splice && grace == 0,
        !splice && grace > 0 ==> relay_path_of(splice, grace) == (RelayPath::WatchedCopy {
            grace_secs: grace,
        }),
{
}

/// A relay that ran to its end reports what it moved. One that fell silent reports
/// for how long, as it was measured or else the grace that it had.
pub proof fn relays_report_their_end(grace: u64, sent: u64, recv: u64, quiet: u64)
    ensures
        verdict_of(RelayPath::WatchedCopy { grace_secs: grace }, RelayStop::Done { sent, recv }).end
            == Some(RelayEnd::Finished { sent, recv }),
        verdict_of(
            RelayPath::WatchedCopy { grace_secs: grace },
            RelayStop::Silent { quiet_secs: Some(quiet) },
        ).end == Some(RelayEnd::HalfCloseTimeout { silent_secs: quiet }),
        verdict_of(
            RelayPath::WatchedCopy { grace_secs: grace },
            RelayStop::Silent { quiet_secs: None },
        ).end == Some(RelayEnd::HalfCloseTimeout { silent_secs: grace }),
{
}

/// What connections moved adds up, connection by connection and each direction by
/// itself.
pub proof fn traffic_adds_up(infos: Seq<TcpInfoExt>, more: TcpInfoExt)
    ensures
        total_received(infos.push(more), infos.len() as int + 1) == total_received(
            infos,
            infos.len() as int,
        ) + more.tcpi_bytes_received,
        total_acked(infos.push(more), infos.len() as int + 1) == total_acked(
            infos,
            infos.len() as int,
        ) + more.tcpi_bytes_acked,
        total_received(infos, 0) == 0,
        total_acked(infos, 0) == 0,
{
    lemma_totals_of_prefix(infos, more, infos.len() as int);
}

proof fn lemma_totals_of_prefix(infos: Seq<TcpInfoExt>, more: TcpInfoExt, n: int)
    requires
        0 <= n <= infos.len(),
    ensures
        total_received(infos.push(more), n) == total_received(infos, n),
        total_acked(infos.push(more), n) == total_acked(infos, n),
    decreases n,
{
    if n > 0 {
        lemma_totals_of_prefix(infos, more, n - 1);
    }
}

} // verus!
