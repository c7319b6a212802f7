//! SOCKS5 servers: their scores, their groups, and which one a connection uses.

use crate::bytes;
use crate::net::SocketAddr;
use crate::text;
use crate::util::now_secs;
use vstd::prelude::*;

verus! {

/// The score of a server of which nothing is known yet: a little above that of a
/// server that failed.
pub const DEFAULT_SCORE: u32 = 150;

/// The score of a server that failed.
pub const PENALTY_SCORE: u32 = 100;

/// The score of a server that came back after it was given up.
pub const RECOVERED_SCORE: u32 = 300;

/// The best score.
pub const MAX_SCORE: u32 = 1000;

/// Reports of one link that follow each other faster than this, in seconds, are
/// ignored.
pub const LINK_COOLDOWN_SECS: u64 = 5;

/// A SOCKS5 server and what is known of its quality.
pub struct Upstream {
    pub id: String,
    pub addr: SocketAddr,
    pub groups: Vec<String>,
    /// The factor on the score, as the bits of an IEEE 754 double.
    pub gain_bits: u64,
    pub tcp_score: u32,
    /// Whether traffic or a failure has set the score of TCP.
    pub tcp_score_initialized: bool,
    pub last_total_recv: u64,
    pub last_total_sent: u64,
    pub last_check_secs: u64,
    pub tcp_info_initialized: bool,
    /// How many health checks in a row have failed.
    pub health_failures: u32,
    pub quic_uplink_score: u32,
    pub quic_downlink_score: u32,
    /// When the link was last scored; 0 for never.
    pub quic_uplink_last_update_secs: u64,
    pub quic_downlink_last_update_secs: u64,
    /// The share of QUIC in the score, in percent.
    pub quic_weight: u32,
}

/// The score that the two QUIC links give, when one of them was scored.
pub open spec fn quic_part(u: Upstream) -> Option<int> {
    let up = u.quic_uplink_last_update_secs != 0;
    let down = u.quic_downlink_last_update_secs != 0;
    if up && down {
        Some((u.quic_uplink_score + u.quic_downlink_score) / 2)
    } else if up {
        Some(u.quic_uplink_score as int)
    } else if down {
        Some(u.quic_downlink_score as int)
    } else {
        None
    }
}

/// The score of a server: that of TCP and that of QUIC by their weights, or the
/// one that is known, or the default.
pub open spec fn score_of(u: Upstream) -> int {
    match (u.tcp_score_initialized, quic_part(u)) {
        (true, Some(quic)) => (u.tcp_score * (100 - u.quic_weight) + quic * u.quic_weight) / 100,
        (false, Some(quic)) => quic,
        (true, None) => u.tcp_score as int,
        (false, None) => DEFAULT_SCORE as int,
    }
}

/// An old and a new value in the proportion `3 : 7`.
pub open spec fn blend_link(old: int, raw: int) -> int {
    (old * 3 + raw * 7) / 10
}

/// An old and a new value in equal parts.
pub open spec fn blend_tcp(old: int, raw: int) -> int {
    (old * 5 + raw * 5) / 10
}

/// Whether a report at `now` counts, when the last one came at `last`.
pub open spec fn past_cooldown(now: u64, last: u64) -> bool {
    now - last >= LINK_COOLDOWN_SECS
}

/// A score after a report.
pub open spec fn link_score_after(score: u32, last: u64, raw: Option<u32>, now: u64) -> u32 {
    match raw {
        Some(raw) if past_cooldown(now, last) => blend_link(
            score as int,
            if raw <= MAX_SCORE {
                raw as int
            } else {
                MAX_SCORE as int
            },
        ) as u32,
        _ => score,
    }
}

/// When a link was last scored, after a report.
pub open spec fn link_time_after(last: u64, raw: Option<u32>, now: u64) -> u64 {
    if raw is Some && past_cooldown(now, last) {
        now
    } else {
        last
    }
}

/// A server after it failed at `now`.
pub open spec fn penalized(u: Upstream, now: u64) -> Upstream {
    Upstream {
        tcp_score: PENALTY_SCORE,
        tcp_score_initialized: true,
        quic_uplink_score: PENALTY_SCORE,
        quic_downlink_score: PENALTY_SCORE,
        quic_uplink_last_update_secs: now,
        quic_downlink_last_update_secs: now,
        ..u
    }
}

/// The traffic of a server between two looks.
#[derive(Debug, Clone, Copy, PartialEq, Eq, Structural)]
pub struct TrafficSample {
    pub bytes: u64,
    pub secs: u64,
}

/// Less traffic than this is noise of an idle server.
pub const MIN_SAMPLE_BYTES: u64 = 16384;

impl TrafficSample {
    /// Whether the traffic says how fast a server is: there is enough of it, and
    /// time has passed.
    pub fn is_measurable(&self) -> (r: bool)
        ensures
            r == (self.bytes >= MIN_SAMPLE_BYTES && self.secs > 0),
            self.bytes < 16384 || self.secs == 0 ==> !r,
            self.bytes >= 16384 && self.secs >= 1 ==> r,
    {
        self.bytes >= MIN_SAMPLE_BYTES && self.secs > 0
    }
}

pub open spec fn monus(a: int, b: int) -> int {
    if a >= b {
        a - b
    } else {
        0
    }
}

/// The traffic since the last look, when there was one: bytes that went up, and
/// at least one second.
pub open spec fn sample_of(u: Upstream, recv: u64, sent: u64, now: u64) -> Option<TrafficSample> {
    if !u.tcp_info_initialized {
        None
    } else {
        let secs = monus(now as int, u.last_check_secs as int);
        Some(
            TrafficSample {
                bytes: (monus(recv as int, u.last_total_recv as int) + monus(
                    sent as int,
                    u.last_total_sent as int,
                )) as u64,
                secs: if secs < 1 {
                    1
                } else {
                    secs as u64
                },
            },
        )
    }
}

/// A server after a health check.
pub open spec fn after_health_check(u: Upstream, alive: bool, threshold: u32, now: u64) -> Upstream {
    if alive {
        let base = Upstream { health_failures: 0, ..u };
        if u.health_failures >= threshold {
            Upstream { tcp_score: RECOVERED_SCORE, tcp_score_initialized: true, ..base }
        } else {
            base
        }
    } else {
        let failures = if u.health_failures == u32::MAX {
            0u32
        } else {
            (u.health_failures + 1) as u32
        };
        let base = Upstream { health_failures: failures, ..u };
        if failures == threshold {
            penalized(base, now)
        } else {
            base
        }
    }
}

impl Upstream {
    /// The share of QUIC is a percentage.
    pub open spec fn wf(self) -> bool {
        self.quic_weight <= 100
    }

    /// A server of which nothing is known yet.
    pub fn new(id: String, addr: SocketAddr, groups: Vec<String>, gain_bits: u64) -> (r: Self)
        ensures
            r == (Upstream {
                id,
                addr,
                groups,
                gain_bits,
                tcp_score: DEFAULT_SCORE,
                tcp_score_initialized: false,
                last_total_recv: 0,
                last_total_sent: 0,
                last_check_secs: 0,
                tcp_info_initialized: false,
                health_failures: 0,
                quic_uplink_score: DEFAULT_SCORE,
                quic_downlink_score: DEFAULT_SCORE,
                quic_uplink_last_update_secs: 0,
                quic_downlink_last_update_secs: 0,
                quic_weight: 40,
            }),
            r.wf(),
    {
        Upstream {
            id,
            addr,
            groups,
            gain_bits,
            tcp_score: DEFAULT_SCORE,
            tcp_score_initialized: false,
            last_total_recv: 0,
            last_total_sent: 0,
            last_check_secs: 0,
            tcp_info_initialized: false,
            health_failures: 0,
            quic_uplink_score: DEFAULT_SCORE,
            quic_downlink_score: DEFAULT_SCORE,
            quic_uplink_last_update_secs: 0,
            quic_downlink_last_update_secs: 0,
            quic_weight: 40,
        }
    }

    /// Sets the share of QUIC; more than 100 percent means 100.
    pub fn set_quic_weight(&mut self, w: u32)
        ensures
            *final(self) == (Upstream {
                quic_weight: if w <= 100 {
                    w
                } else {
                    100
                },
                ..*old(self)
            }),
            final(self).wf(),
    {
        self.quic_weight = if w <= 100 {
            w
        } else {
            100
        };
    }

    /// The score of the server, without its gain.
    pub fn score(&self) -> (r: u32)
        requires
            self.wf(),
        ensures
            r == score_of(*self),
            // Of one kind alone, the score of that kind.
            !self.tcp_score_initialized && self.quic_uplink_last_update_secs != 0
                && self.quic_downlink_last_update_secs == 0 ==> r == self.quic_uplink_score,
            !self.tcp_score_initialized && self.quic_uplink_last_update_secs == 0
                && self.quic_downlink_last_update_secs != 0 ==> r == self.quic_downlink_score,
            !self.tcp_score_initialized && self.quic_uplink_last_update_secs != 0
                && self.quic_downlink_last_update_secs != 0 ==> 2 * r <= self.quic_uplink_score
                + self.quic_downlink_score <= 2 * r + 1,
            self.tcp_score_initialized && self.quic_uplink_last_update_secs == 0
                && self.quic_downlink_last_update_secs == 0 ==> r == self.tcp_score,
            !self.tcp_score_initialized && self.quic_uplink_last_update_secs == 0
                && self.quic_downlink_last_update_secs == 0 ==> r == 150,
    {
        let up = self.quic_uplink_last_update_secs != 0;
        let down = self.quic_downlink_last_update_secs != 0;
        let quic: u64 = if up && down {
            (self.quic_uplink_score as u64 + self.quic_downlink_score as u64) / 2
        } else if up {
            self.quic_uplink_score as u64
        } else if down {
            self.quic_downlink_score as u64
        } else {
            DEFAULT_SCORE as u64
        };
        let tcp = self.tcp_score as u64;
        let qw = self.quic_weight as u64;
        match (self.tcp_score_initialized, up || down) {
            (true, true) => {
                assert(tcp * (100 - qw) + quic * qw <= 0xffff_ffff * 100) by (nonlinear_arith)
                    requires
                        tcp <= 0xffff_ffff,
                        quic <= 0xffff_ffff,
                        qw <= 100,
                ;
                assert(tcp * (100 - qw) >= 0 && quic * qw >= 0) by (nonlinear_arith)
                    requires
                        0 <= tcp,
                        0 <= quic,
                        0 <= qw <= 100,
                ;
                ((tcp * (100 - qw) + quic * qw) / 100) as u32
            },
            (false, true) => quic as u32,
            (true, false) => self.tcp_score,
            (false, false) => DEFAULT_SCORE,
        }
    }

    /// Takes a report of the uplink at `now`. Nothing changes without a score or
    /// within five seconds of the last one.
    pub fn update_uplink_score_at(&mut self, raw: Option<u32>, now: u64)
        ensures
            *final(self) == (Upstream {
                quic_uplink_score: link_score_after(
                    old(self).quic_uplink_score,
                    old(self).quic_uplink_last_update_secs,
                    raw,
                    now,
                ),
                quic_uplink_last_update_secs: link_time_after(
                    old(self).quic_uplink_last_update_secs,
                    raw,
                    now,
                ),
                ..*old(self)
            }),
    {
        let (score, last) = update_link_score(
            self.quic_uplink_score,
            self.quic_uplink_last_update_secs,
            raw,
            now,
        );
        self.quic_uplink_score = score;
        self.quic_uplink_last_update_secs = last;
    }

    /// Takes a report of the downlink at `now`.
    pub fn update_downlink_score_at(&mut self, raw: Option<u32>, now: u64)
        ensures
            *final(self) == (Upstream {
                quic_downlink_score: link_score_after(
                    old(self).quic_downlink_score,
                    old(self).quic_downlink_last_update_secs,
                    raw,
                    now,
                ),
                quic_downlink_last_update_secs: link_time_after(
                    old(self).quic_downlink_last_update_secs,
                    raw,
                    now,
                ),
                ..*old(self)
            }),
    {
        let (score, last) = update_link_score(
            self.quic_downlink_score,
            self.quic_downlink_last_update_secs,
            raw,
            now,
        );
        self.quic_downlink_score = score;
        self.quic_downlink_last_update_secs = last;
    }

    /// Takes a report of the uplink, by the clock.
    pub fn update_uplink_score(&mut self, raw: Option<u32>)
        ensures
            exists|now: u64|
                *final(self) == (Upstream {
                    quic_uplink_score: #[trigger] link_score_after(
                        old(self).quic_uplink_score,
                        old(self).quic_uplink_last_update_secs,
                        raw,
                        now,
                    ),
                    quic_uplink_last_update_secs: link_time_after(
                        old(self).quic_uplink_last_update_secs,
                        raw,
                        now,
                    ),
                    ..*old(self)
                }),
    {
        let now = now_secs();
        self.update_uplink_score_at(raw, now);
    }

    /// Takes a report of the downlink, by the clock.
    pub fn update_downlink_score(&mut self, raw: Option<u32>)
        ensures
            exists|now: u64|
                *final(self) == (Upstream {
                    quic_downlink_score: #[trigger] link_score_after(
                        old(self).quic_downlink_score,
                        old(self).quic_downlink_last_update_secs,
                        raw,
                        now,
                    ),
                    quic_downlink_last_update_secs: link_time_after(
                        old(self).quic_downlink_last_update_secs,
                        raw,
                        now,
                    ),
                    ..*old(self)
                }),
    {
        let now = now_secs();
        self.update_downlink_score_at(raw, now);
    }

    /// Marks the server as failed at `now`.
    pub fn penalize_at(&mut self, now: u64)
        ensures
            *final(self) == penalized(*old(self), now),
    {
        self.tcp_score = PENALTY_SCORE;
        self.tcp_score_initialized = true;
        self.quic_uplink_score = PENALTY_SCORE;
        self.quic_downlink_score = PENALTY_SCORE;
        self.quic_uplink_last_update_secs = now;
        self.quic_downlink_last_update_secs = now;
    }

    /// Marks the server as failed, by the clock.
    pub fn penalize(&mut self)
        ensures
            exists|now: u64| *final(self) == #[trigger] penalized(*old(self), now),
    {
        let now = now_secs();
        self.penalize_at(now);
    }

    /// Notes the totals of the server's connections at `now`, and gives the
    /// traffic since the last look. Totals shrink when connections end; that
    /// counts as no traffic.
    pub fn observe_traffic(&mut self, recv: u64, sent: u64, now: u64) -> (r: Option<TrafficSample>)
        requires
            recv + sent <= u64::MAX,
        ensures
            r == sample_of(*old(self), recv, sent, now),
            *final(self) == (Upstream {
                last_total_recv: recv,
                last_total_sent: sent,
                last_check_secs: now,
                tcp_info_initialized: true,
                ..*old(self)
            }),
    {
        let sample = if self.tcp_info_initialized {
            let bytes = recv.saturating_sub(self.last_total_recv) + sent.saturating_sub(
                self.last_total_sent,
            );
            let secs = now.saturating_sub(self.last_check_secs);
            Some(
                TrafficSample {
                    bytes,
                    secs: if secs < 1 {
                        1
                    } else {
                        secs
                    },
                },
            )
        } else {
            None
        };
        self.last_total_recv = recv;
        self.last_total_sent = sent;
        self.last_check_secs = now;
        self.tcp_info_initialized = true;
        sample
    }

    /// Takes the score that the traffic since the last look earned.
    pub fn apply_throughput(&mut self, raw: u32)
        ensures
            *final(self) == (Upstream {
                tcp_score: blend_tcp(old(self).tcp_score as int, raw as int) as u32,
                tcp_score_initialized: true,
                ..*old(self)
            }),
    {
        self.tcp_score = ((self.tcp_score as u64 * 5 + raw as u64 * 5) / 10) as u32;
        self.tcp_score_initialized = true;
    }

    /// Takes the result of a health check. The server is given up when as many
    /// checks in a row have failed as the threshold says, and starts again from a
    /// middling score when it comes back after that.
    pub fn note_health(&mut self, alive: bool, threshold: u32, now: u64)
        ensures
            *final(self) == after_health_check(*old(self), alive, threshold, now),
    {
        if alive {
            let failures = self.health_failures;
            self.health_failures = 0;
            if failures >= threshold {
                self.tcp_score = RECOVERED_SCORE;
                self.tcp_score_initialized = true;
            }
        } else {
            self.health_failures = self.health_failures.wrapping_add(1);
            if self.health_failures == threshold {
                self.penalize_at(now);
            }
        }
    }
}

fn update_link_score(score: u32, last: u64, raw: Option<u32>, now: u64) -> (r: (u32, u64))
    ensures
        r.0 == link_score_after(score, last, raw, now),
        r.1 == link_time_after(last, raw, now),
{
    match raw {
        Some(raw) => {
            let raw: u32 = if raw <= MAX_SCORE {
                raw
            } else {
                MAX_SCORE
            };
            if now.saturating_sub(last) < LINK_COOLDOWN_SECS {
                return (score, last);
            }
            (((score as u64 * 3 + raw as u64 * 7) / 10) as u32, now)
        },
        None => (score, last),
    }
}

/// The scores of a server are within bounds.
pub open spec fn scores_bounded(u: Upstream) -> bool {
    &&& u.tcp_score <= MAX_SCORE
    &&& u.quic_uplink_score <= MAX_SCORE
    &&& u.quic_downlink_score <= MAX_SCORE
}

/// While the parts of a score are within bounds, the score is.
pub proof fn score_is_bounded(u: Upstream)
    requires
        u.wf(),
        scores_bounded(u),
    ensures
        0 <= score_of(u) <= MAX_SCORE,
{
    if let Some(quic) = quic_part(u) {
        assert(u.tcp_score * (100 - u.quic_weight) + quic * u.quic_weight <= 1000 * 100)
            by (nonlinear_arith)
            requires
                u.tcp_score <= 1000,
                quic <= 1000,
                u.quic_weight <= 100,
        ;
        assert(u.tcp_score * (100 - u.quic_weight) >= 0 && quic * u.quic_weight >= 0)
            by (nonlinear_arith)
            requires
                u.quic_weight <= 100,
                quic >= 0,
        ;
    }
}

/// No report, sample, failure or health check takes a score out of bounds.
pub proof fn scores_stay_bounded(
    u: Upstream,
    raw: Option<u32>,
    throughput: u32,
    alive: bool,
    threshold: u32,
    now: u64,
)
    requires
        scores_bounded(u),
        throughput <= MAX_SCORE,
    ensures
        link_score_after(u.quic_uplink_score, u.quic_uplink_last_update_secs, raw, now) <= MAX_SCORE,
        link_score_after(u.quic_downlink_score, u.quic_downlink_last_update_secs, raw, now)
            <= MAX_SCORE,
        blend_tcp(u.tcp_score as int, throughput as int) <= MAX_SCORE,
        scores_bounded(penalized(u, now)),
        scores_bounded(after_health_check(u, alive, threshold, now)),
{
}

/// A server that failed scores 100, whatever it scored before, while its clock
/// is past the epoch.
pub proof fn penalty_sets_the_score(u: Upstream, now: u64)
    requires
        u.wf(),
        now != 0,
    ensures
        score_of(penalized(u, now)) == PENALTY_SCORE,
{
    let p = penalized(u, now);
    assert(100 * (100 - p.quic_weight) + 100 * p.quic_weight == 10000) by (nonlinear_arith);
}

/// Where one kind of score is known alone, it is the score: that of the only link
/// that was scored, the mean of both links, or that of TCP. A server of which
/// nothing is known scores 150.
pub proof fn known_score_is_the_score(u: Upstream)
    ensures
        !u.tcp_score_initialized && u.quic_uplink_last_update_secs != 0
            && u.quic_downlink_last_update_secs == 0 ==> score_of(u) == u.quic_uplink_score,
        !u.tcp_score_initialized && u.quic_uplink_last_update_secs == 0
            && u.quic_downlink_last_update_secs != 0 ==> score_of(u) == u.quic_downlink_score,
        !u.tcp_score_initialized && u.quic_uplink_last_update_secs != 0
            && u.quic_downlink_last_update_secs != 0 ==> 2 * score_of(u) <= u.quic_uplink_score
            + u.quic_downlink_score <= 2 * score_of(u) + 1,
        u.tcp_score_initialized && u.quic_uplink_last_update_secs == 0
            && u.quic_downlink_last_update_secs == 0 ==> score_of(u) == u.tcp_score,
        !u.tcp_score_initialized && u.quic_uplink_last_update_secs == 0
            && u.quic_downlink_last_update_secs == 0 ==> score_of(u) == 150,
{
}

/// Where both kinds are known, the share of QUIC in the score is its weight in
/// percent, and TCP has the rest.
pub proof fn kinds_share_the_score(u: Upstream, quic: int)
    requires
        u.wf(),
        u.tcp_score_initialized,
        u.quic_uplink_last_update_secs != 0 || u.quic_downlink_last_update_secs != 0,
        u.quic_downlink_last_update_secs == 0 ==> quic == u.quic_uplink_score,
        u.quic_uplink_last_update_secs == 0 ==> quic == u.quic_downlink_score,
        u.quic_uplink_last_update_secs != 0 && u.quic_downlink_last_update_secs != 0 ==> 2 * quic
            <= u.quic_uplink_score + u.quic_downlink_score <= 2 * quic + 1,
    ensures
        100 * score_of(u) <= u.tcp_score * (100 - u.quic_weight) + quic * u.quic_weight < 100
            * score_of(u) + 100,
        u.quic_weight == 0 ==> score_of(u) == u.tcp_score,
        u.quic_weight == 100 ==> score_of(u) == quic,
{
    assert(quic_part(u) == Some(quic));
    let w = u.quic_weight as int;
    let t = u.tcp_score as int;
    if w == 0 {
        assert(t * (100 - w) + quic * w == 100 * t) by (nonlinear_arith)
            requires
                w == 0,
        ;
    }
    if w == 100 {
        assert(t * (100 - w) + quic * w == 100 * quic) by (nonlinear_arith)
            requires
                w == 100,
        ;
    }
}

/// A report of a link counts seven parts of ten, the score so far three, and no
/// report counts more than 1000. Reports within five seconds of the last one that
/// counted, and reports without a score, change nothing.
pub proof fn reports_move_a_link(score: u32, last: u64, raw: u32, now: u64)
    ensures
        ({
            let counted = if raw <= 1000 {
                raw as int
            } else {
                1000
            };
            let after = link_score_after(score, last, Some(raw), now);
            now - last >= 5 ==> {
                &&& 10 * after <= 3 * score + 7 * counted < 10 * after + 10
                &&& link_time_after(last, Some(raw), now) == now
            }
        }),
        now - last < 5 ==> link_score_after(score, last, Some(raw), now) == score
            && link_time_after(last, Some(raw), now) == last,
        link_score_after(score, last, None, now) == score,
        link_time_after(last, None, now) == last,
{
}

/// A score that traffic earned and the score of TCP so far count alike.
pub proof fn traffic_counts_one_half(old_score: u32, raw: u32)
    ensures
        2 * blend_tcp(old_score as int, raw as int) <= old_score + raw <= 2 * blend_tcp(
            old_score as int,
            raw as int,
        ) + 1,
{
}

/// The traffic between two looks is what both totals grew by, in the time between
/// the looks. A total that shrank counts as no traffic, a time of less than one
/// second as one second, and the first look gives none.
pub proof fn traffic_is_what_was_added(u: Upstream, recv: u64, sent: u64, now: u64)
    requires
        recv + sent <= u64::MAX,
    ensures
        sample_of(u, recv, sent, now) is Some <==> u.tcp_info_initialized,
        sample_of(u, recv, sent, now) matches Some(s) ==> {
            &&& recv >= u.last_total_recv && sent >= u.last_total_sent ==> s.bytes
                + u.last_total_recv + u.last_total_sent == recv + sent
            &&& recv >= u.last_total_recv && sent < u.last_total_sent ==> s.bytes
                + u.last_total_recv == recv
            &&& recv < u.last_total_recv && sent >= u.last_total_sent ==> s.bytes
                + u.last_total_sent == sent
            &&& recv < u.last_total_recv && sent < u.last_total_sent ==> s.bytes == 0
            &&& now > u.last_check_secs ==> s.secs + u.last_check_secs == now
            &&& now <= u.last_check_secs ==> s.secs == 1
        },
{
}

/// A server is given up at the very failure that makes as many in a row as the
/// threshold says: every score falls to 100. Before and after that a failed check
/// is only counted.
pub proof fn failures_in_a_row_give_a_server_up(u: Upstream, threshold: u32, now: u64)
    requires
        u.health_failures < u32::MAX,
    ensures
        ({
            let after = after_health_check(u, false, threshold, now);
            &&& after.health_failures == u.health_failures + 1
            &&& u.health_failures + 1 != threshold ==> after == (Upstream {
                health_failures: after.health_failures,
                ..u
            })
            &&& u.health_failures + 1 == threshold ==> {
                &&& after.tcp_score == 100 && after.tcp_score_initialized
                &&& after.quic_uplink_score == 100 && after.quic_downlink_score == 100
                &&& after.quic_uplink_last_update_secs == now
                &&& after.quic_downlink_last_update_secs == now
                &&& after.id == u.id && after.groups == u.groups && after.gain_bits == u.gain_bits
                &&& after.quic_weight == u.quic_weight
            }
        }),
{
}

/// A check that succeeds ends the row of failures. A server that had been given up
/// starts again from a score of TCP of 300; another keeps its score.
pub proof fn success_brings_a_server_back(u: Upstream, threshold: u32, now: u64)
    ensures
        ({
            let after = after_health_check(u, true, threshold, now);
            &&& after.health_failures == 0
            &&& u.health_failures >= threshold ==> after.tcp_score == 300
                && after.tcp_score_initialized
            &&& u.health_failures < threshold ==> after.tcp_score == u.tcp_score
                && after.tcp_score_initialized == u.tcp_score_initialized
            &&& after == (Upstream {
                health_failures: 0,
                tcp_score: after.tcp_score,
                tcp_score_initialized: after.tcp_score_initialized,
                ..u
            })
        }),
{
}

// ---------------------------------------------------------------------------
// Probes
// ---------------------------------------------------------------------------

pub open spec fn loss_penalty(percent: u32) -> int {
    if percent == 0 {
        0
    } else if percent <= 2 {
        60
    } else if percent <= 5 {
        200
    } else if percent <= 10 {
        500
    } else if percent <= 20 {
        750
    } else {
        900
    }
}

pub open spec fn rtt_penalty(ms: u32) -> int {
    if ms <= 80 {
        0
    } else if ms <= 150 {
        40
    } else if ms <= 250 {
        100
    } else if ms <= 400 {
        180
    } else {
        300
    }
}

pub open spec fn mtu_penalty(mtu: u16) -> int {
    if mtu >= 1400 {
        0
    } else if mtu >= 1300 {
        60
    } else if mtu >= 1280 {
        120
    } else if mtu >= 1200 {
        250
    } else {
        450
    }
}

/// The score of a link: 1000 less the penalties for loss, delay and small
/// packets, and at least 50.
pub open spec fn quic_score_of(loss_percent: u32, rtt_ms: u32, mtu: u16) -> int {
    let score = 1000 - loss_penalty(loss_percent) - rtt_penalty(rtt_ms) - mtu_penalty(mtu);
    if score < 50 {
        50
    } else {
        score
    }
}

/// The score of a link, by the loss in whole percent, the round trip in whole
/// milliseconds and the size of packets.
pub fn quic_score(loss_percent: u32, rtt_ms: u32, mtu: u16) -> (r: u32)
    ensures
        r == quic_score_of(loss_percent, rtt_ms, mtu),
        50 <= r <= MAX_SCORE,
{
    let loss: u32 = if loss_percent == 0 {
        0
    } else if loss_percent <= 2 {
        60
    } else if loss_percent <= 5 {
        200
    } else if loss_percent <= 10 {
        500
    } else if loss_percent <= 20 {
        750
    } else {
        900
    };
    let rtt: u32 = if rtt_ms <= 80 {
        0
    } else if rtt_ms <= 150 {
        40
    } else if rtt_ms <= 250 {
        100
    } else if rtt_ms <= 400 {
        180
    } else {
        300
    };
    let small: u32 = if mtu >= 1400 {
        0
    } else if mtu >= 1300 {
        60
    } else if mtu >= 1280 {
        120
    } else if mtu >= 1200 {
        250
    } else {
        450
    };
    let score = 1000u32.saturating_sub(loss).saturating_sub(rtt).saturating_sub(small);
    if score < 50 {
        50
    } else {
        score
    }
}

/// More loss, more delay or smaller packets never raise a score.
pub proof fn worse_links_score_no_better(l1: u32, r1: u32, m1: u16, l2: u32, r2: u32, m2: u16)
    requires
        l1 <= l2,
        r1 <= r2,
        m1 >= m2,
    ensures
        quic_score_of(l1, r1, m1) >= quic_score_of(l2, r2, m2),
{
}

/// Loss, delay and small packets take from the best score each on its own, and
/// what they take adds up, down to 50.
pub proof fn faults_of_a_link_add_up(loss: u32, rtt: u32, mtu: u16)
    ensures
        ({
            let lost = (1000 - quic_score_of(loss, 0, 1500)) + (1000 - quic_score_of(0, rtt, 1500))
                + (1000 - quic_score_of(0, 0, mtu));
            quic_score_of(loss, rtt, mtu) == if lost <= 950 {
                1000 - lost
            } else {
                50
            }
        }),
{
}

/// What a fault of a link leaves of the best score, step by step.
pub proof fn links_score_in_steps(loss: u32, rtt: u32, mtu: u16)
    ensures
        loss == 0 ==> quic_score_of(loss, 0, 1500) == 1000,
        1 <= loss <= 2 ==> quic_score_of(loss, 0, 1500) == 940,
        3 <= loss <= 5 ==> quic_score_of(loss, 0, 1500) == 800,
        6 <= loss <= 10 ==> quic_score_of(loss, 0, 1500) == 500,
        11 <= loss <= 20 ==> quic_score_of(loss, 0, 1500) == 250,
        loss > 20 ==> quic_score_of(loss, 0, 1500) == 100,
        rtt <= 80 ==> quic_score_of(0, rtt, 1500) == 1000,
        81 <= rtt <= 150 ==> quic_score_of(0, rtt, 1500) == 960,
        151 <= rtt <= 250 ==> quic_score_of(0, rtt, 1500) == 900,
        251 <= rtt <= 400 ==> quic_score_of(0, rtt, 1500) == 820,
        rtt > 400 ==> quic_score_of(0, rtt, 1500) == 700,
        mtu >= 1400 ==> quic_score_of(0, 0, mtu) == 1000,
        1300 <= mtu < 1400 ==> quic_score_of(0, 0, mtu) == 940,
        1280 <= mtu < 1300 ==> quic_score_of(0, 0, mtu) == 880,
        1200 <= mtu < 1280 ==> quic_score_of(0, 0, mtu) == 750,
        mtu < 1200 ==> quic_score_of(0, 0, mtu) == 550,
{
}

// ---------------------------------------------------------------------------
// Health checks
// ---------------------------------------------------------------------------

/// The request that a health check sends.
pub fn health_request(host: &str) -> (r: String)
    ensures
        r@ == "HEAD / HTTP/1.1\r\nHost: "@ + host@ + "\r\nConnection: close\r\n\r\n"@,
{
    let mut out = String::new();
    text::push_str(&mut out, "HEAD / HTTP/1.1\r\nHost: ");
    text::push_str(&mut out, host);
    text::push_str(&mut out, "\r\nConnection: close\r\n\r\n");
    assert(out@ =~= "HEAD / HTTP/1.1\r\nHost: "@ + host@ + "\r\nConnection: close\r\n\r\n"@);
    out
}

/// The bytes of `HTTP/1.1`.
pub open spec fn http_1_1() -> Seq<u8> {
    seq![72u8, 84u8, 84u8, 80u8, 47u8, 49u8, 46u8, 49u8]
}

/// Whether the reply to a health check is one: it has `HTTP/1.1` somewhere.
pub fn is_health_reply(reply: &[u8]) -> (r: bool)
    ensures
        r == text::contains_seq(reply@, http_1_1()),
{
    let pat: Vec<u8> = vec![72, 84, 84, 80, 47, 49, 46, 49];
    assert(pat@ =~= http_1_1());
    proof {
        text::lemma_find_from(reply@, pat@, 0);
    }
    bytes::find_bytes(reply, pat.as_slice(), 0).is_some()
}

// ---------------------------------------------------------------------------
// Groups
// ---------------------------------------------------------------------------

/// The largest score that a gain can make.
pub const MAX_EFFECTIVE: u64 = 10_000_000;

/// How many candidates at most keep the sum of their weights within 64 bits.
pub const MAX_CANDIDATES: usize = 184_467;

/// The server that a group used last.
pub struct GroupChoice {
    pub group: String,
    pub id: String,
}

/// All servers, and which one each group used last.
pub struct UpstreamSet {
    pub items: Vec<Upstream>,
    pub current: Vec<GroupChoice>,
    /// By how much another server has to be better before a group leaves the one
    /// it uses; 0 for no preference.
    pub tolerance: u32,
}

/// The set would have no server.
#[derive(Debug, Clone, Copy, PartialEq, Eq, Structural)]
pub struct EmptySetError;

/// How often a group occurs among the first `n` groups of a server.
pub open spec fn hits(groups: Seq<String>, group: Seq<char>, n: int) -> nat
    decreases n,
{
    if n <= 0 {
        0
    } else {
        hits(groups, group, n - 1) + if groups[n - 1]@ == group {
            1nat
        } else {
            0nat
        }
    }
}

/// The members of a group among the first `n` servers, in order. A server is a
/// member as often as it names the group.
pub open spec fn members_upto(items: Seq<Upstream>, group: Seq<char>, n: int) -> Seq<usize>
    decreases n,
{
    if n <= 0 {
        Seq::empty()
    } else {
        members_upto(items, group, n - 1) + Seq::new(
            hits(items[n - 1].groups@, group, items[n - 1].groups@.len() as int),
            |k: int| (n - 1) as usize,
        )
    }
}

/// The members of a group.
pub open spec fn members(items: Seq<Upstream>, group: Seq<char>) -> Seq<usize> {
    members_upto(items, group, items.len() as int)
}

/// The first `n` candidates without those of the given names.
pub open spec fn kept_upto(
    items: Seq<Upstream>,
    cand: Seq<usize>,
    exclude: Seq<String>,
    n: int,
) -> Seq<usize>
    decreases n,
{
    if n <= 0 {
        Seq::empty()
    } else {
        let before = kept_upto(items, cand, exclude, n - 1);
        if text::names(exclude).contains(items[cand[n - 1] as int].id@) {
            before
        } else {
            before.push(cand[n - 1])
        }
    }
}

/// The candidates without those of the given names.
pub open spec fn kept(items: Seq<Upstream>, cand: Seq<usize>, exclude: Seq<String>) -> Seq<usize> {
    kept_upto(items, cand, exclude, cand.len() as int)
}

/// Every candidate is a server of the set.
pub open spec fn in_range(cand: Seq<usize>, len: nat) -> bool {
    forall|k: int| 0 <= k < cand.len() ==> (#[trigger] cand[k]) < len
}

proof fn lemma_members_in_range(items: Seq<Upstream>, group: Seq<char>, n: int)
    requires
        0 <= n <= items.len() <= usize::MAX,
    ensures
        in_range(members_upto(items, group, n), items.len()),
        forall|k: int|
            0 <= k < members_upto(items, group, n).len() ==> (
            #[trigger] members_upto(items, group, n)[k]) < n,
    decreases n,
{
    if n > 0 {
        lemma_members_in_range(items, group, n - 1);
    }
}

proof fn lemma_kept_in_range(items: Seq<Upstream>, cand: Seq<usize>, exclude: Seq<String>, n: int)
    requires
        0 <= n <= cand.len(),
        in_range(cand, items.len()),
    ensures
        in_range(kept_upto(items, cand, exclude, n), items.len()),
        kept_upto(items, cand, exclude, n).len() <= n,
        forall|k: int|
            0 <= k < kept_upto(items, cand, exclude, n).len() ==> {
                let i = #[trigger] kept_upto(items, cand, exclude, n)[k];
                &&& cand.contains(i)
                &&& !text::names(exclude).contains(items[i as int].id@)
            },
    decreases n,
{
    if n > 0 {
        lemma_kept_in_range(items, cand, exclude, n - 1);
        assert(cand.contains(cand[n - 1]));
    }
}

proof fn lemma_hit_means_member(groups: Seq<String>, group: Seq<char>, n: int)
    requires
        0 <= n <= groups.len(),
    ensures
        hits(groups, group, n) > 0 <==> exists|k: int| 0 <= k < n && (#[trigger] groups[k])@ == group,
    decreases n,
{
    if n > 0 {
        lemma_hit_means_member(groups, group, n - 1);
        if groups[n - 1]@ == group {
            assert(groups[n - 1]@ == group);
        }
    }
}

proof fn lemma_members_name_the_group(items: Seq<Upstream>, group: Seq<char>, n: int, i: usize)
    requires
        0 <= n <= items.len() <= usize::MAX,
        i < items.len(),
    ensures
        members_upto(items, group, n).contains(i) <==> (i < n && text::names(
            items[i as int].groups@,
        ).contains(group)),
    decreases n,
{
    let all = members_upto(items, group, n);
    if n > 0 {
        let before = members_upto(items, group, n - 1);
        let groups = items[n - 1].groups@;
        let count = hits(groups, group, groups.len() as int);
        lemma_members_name_the_group(items, group, n - 1, i);
        lemma_members_in_range(items, group, n - 1);
        lemma_hit_means_member(groups, group, groups.len() as int);
        let names = text::names(groups);
        if names.contains(group) {
            let k = choose|k: int| 0 <= k < names.len() && names[k] == group;
            assert(groups[k]@ == group);
        }
        if count > 0 {
            let k = choose|k: int| 0 <= k < groups.len() && (#[trigger] groups[k])@ == group;
            assert(names[k] == group);
        }
        if before.contains(i) {
            let k = choose|k: int| 0 <= k < before.len() && before[k] == i;
            assert(all[k] == i);
        }
        if i == n - 1 && count > 0 {
            assert(all[before.len() as int] == i);
        }
        if all.contains(i) {
            let k = choose|k: int| 0 <= k < all.len() && all[k] == i;
            if k < before.len() {
                assert(before[k] == i);
            }
        }
    } else {
        assert(all.len() == 0);
    }
}

/// The members of a group are the servers that name it.
pub proof fn members_name_the_group(items: Seq<Upstream>, group: Seq<char>, i: usize)
    requires
        items.len() <= usize::MAX,
        i < items.len(),
    ensures
        members(items, group).contains(i) <==> text::names(items[i as int].groups@).contains(group),
{
    lemma_members_name_the_group(items, group, items.len() as int, i);
}

/// The members of a group are servers of the set.
pub proof fn lemma_group_in_range(items: Seq<Upstream>, group: Seq<char>)
    requires
        items.len() <= usize::MAX,
    ensures
        in_range(members(items, group), items.len()),
{
    lemma_members_in_range(items, group, items.len() as int);
}

/// A candidate that is left over is one that was there and is not excluded.
pub proof fn kept_candidates_are_not_excluded(
    items: Seq<Upstream>,
    cand: Seq<usize>,
    exclude: Seq<String>,
    i: usize,
)
    requires
        in_range(cand, items.len()),
        kept(items, cand, exclude).contains(i),
    ensures
        cand.contains(i),
        !text::names(exclude).contains(items[i as int].id@),
{
    lemma_kept_in_range(items, cand, exclude, cand.len() as int);
}

// ---------------------------------------------------------------------------
// Choice
// ---------------------------------------------------------------------------

/// The weight of a score: its square.
pub open spec fn weight(eff: Seq<u64>, i: usize) -> int {
    eff[i as int] * eff[i as int]
}

/// The sum of the weights of the first `n` candidates.
pub open spec fn total_upto(cand: Seq<usize>, eff: Seq<u64>, n: int) -> int
    decreases n,
{
    if n <= 0 {
        0
    } else {
        total_upto(cand, eff, n - 1) + weight(eff, cand[n - 1])
    }
}

/// The last of the first `n` candidates with the best score among them.
pub open spec fn last_best(cand: Seq<usize>, eff: Seq<u64>, n: int) -> int
    decreases n,
{
    if n <= 1 {
        0
    } else {
        let before = last_best(cand, eff, n - 1);
        if eff[cand[n - 1] as int] >= eff[cand[before] as int] {
            n - 1
        } else {
            before
        }
    }
}

/// The first candidate from `from` on with the given name.
pub open spec fn position_of(
    items: Seq<Upstream>,
    cand: Seq<usize>,
    id: Seq<char>,
    from: int,
) -> Option<int>
    decreases cand.len() - from,
{
    if from < 0 || from >= cand.len() {
        None
    } else if items[cand[from] as int].id@ == id {
        Some(from)
    } else {
        position_of(items, cand, id, from + 1)
    }
}

/// What the name of the last choice means for the next one.
#[derive(Debug, Clone, Copy, PartialEq, Eq, Structural)]
pub enum PickPlan {
    /// There is no candidate.
    Nobody,
    /// Take this server, and remember nothing.
    Keep(usize),
    /// Draw a number below the sum of the weights, which is this.
    Draw(u64),
}

/// The plan for a choice among candidates. A single candidate is taken. The last
/// choice stays unless another candidate is better by more than the tolerance.
pub open spec fn plan_of(
    items: Seq<Upstream>,
    cand: Seq<usize>,
    sticky: Option<Seq<char>>,
    tolerance: u32,
    eff: Seq<u64>,
) -> PickPlan {
    let draw = PickPlan::Draw(total_upto(cand, eff, cand.len() as int) as u64);
    if cand.len() == 0 {
        PickPlan::Nobody
    } else if cand.len() == 1 {
        PickPlan::Keep(cand[0])
    } else if tolerance == 0 || sticky is None {
        draw
    } else {
        match position_of(items, cand, sticky->0, 0) {
            None => draw,
            Some(p) => {
                let cur = cand[p];
                let best = cand[last_best(cand, eff, cand.len() as int)];
                if items[best as int].id@ != items[cur as int].id@ && eff[best as int]
                    > eff[cur as int] + tolerance {
                    draw
                } else {
                    PickPlan::Keep(cur)
                }
            },
        }
    }
}

/// The candidate that a number falls on, from `p` on: each takes as many numbers
/// as its weight says.
pub open spec fn draw_from(cand: Seq<usize>, eff: Seq<u64>, x: int, p: int) -> usize
    decreases cand.len() - p,
{
    if p < 0 || p >= cand.len() {
        cand[0]
    } else if x < weight(eff, cand[p]) {
        cand[p]
    } else {
        draw_from(cand, eff, x - weight(eff, cand[p]), p + 1)
    }
}

/// The candidate that a number falls on; when no candidate has any weight, all
/// are alike.
pub open spec fn drawn(cand: Seq<usize>, eff: Seq<u64>, x: int) -> usize {
    if total_upto(cand, eff, cand.len() as int) == 0 {
        cand[x]
    } else {
        draw_from(cand, eff, x, 0)
    }
}

/// How many numbers there are to draw from.
pub open spec fn draws(cand: Seq<usize>, eff: Seq<u64>) -> int {
    let total = total_upto(cand, eff, cand.len() as int);
    if total == 0 {
        cand.len() as int
    } else {
        total
    }
}

/// The name that a list of choices has for a group, from `from` on.
pub open spec fn choice_from(current: Seq<GroupChoice>, group: Seq<char>, from: int) -> Option<
    Seq<char>,
>
    decreases current.len() - from,
{
    if from < 0 || from >= current.len() {
        None
    } else if current[from].group@ == group {
        Some(current[from].id@)
    } else {
        choice_from(current, group, from + 1)
    }
}

/// One score for each server, each within bounds, and not too many candidates.
pub open spec fn scores_fit(items: Seq<Upstream>, cand: Seq<usize>, eff: Seq<u64>) -> bool {
    &&& eff.len() == items.len()
    &&& forall|i: int| 0 <= i < eff.len() ==> (#[trigger] eff[i]) <= MAX_EFFECTIVE
    &&& cand.len() <= MAX_CANDIDATES
}

impl UpstreamSet {
    /// The share of QUIC is a percentage for every server.
    pub open spec fn wf(self) -> bool {
        forall|i: int| 0 <= i < self.items@.len() ==> (#[trigger] self.items@[i]).wf()
    }

    /// The name of the server that a group used last.
    pub open spec fn sticky(self, group: Seq<char>) -> Option<Seq<char>> {
        choice_from(self.current@, group, 0)
    }

    /// The members of a group.
    pub open spec fn group(self, group: Seq<char>) -> Seq<usize> {
        members(self.items@, group)
    }

    /// Only the last choice of one group changed.
    pub open spec fn remembers(self, after: UpstreamSet, group: Seq<char>, id: Seq<char>) -> bool {
        &&& after.items == self.items
        &&& after.tolerance == self.tolerance
        &&& forall|g: Seq<char>| #[trigger]
            after.sticky(g) == if g == group {
                Some(id)
            } else {
                self.sticky(g)
            }
    }

    /// What a choice returns and changes, when it draws `x` if it draws.
    pub open spec fn chooses(
        self,
        after: UpstreamSet,
        cand: Seq<usize>,
        group: Seq<char>,
        eff: Seq<u64>,
        x: int,
        r: Option<usize>,
    ) -> bool {
        match plan_of(self.items@, cand, self.sticky(group), self.tolerance, eff) {
            PickPlan::Nobody => r is None && after == self,
            PickPlan::Keep(i) => r == Some(i) && after == self,
            PickPlan::Draw(_) => {
                &&& 0 <= x < draws(cand, eff)
                &&& r == Some(drawn(cand, eff, x))
                &&& self.remembers(
                    after,
                    group,
                    self.items@[drawn(cand, eff, x) as int].id@,
                )
            },
        }
    }
}

/// Draws an index below `n` with `fastrand::usize`, which draws uniformly and so
/// below the end of the range. It panics on an empty range.
#[verifier::external_body]
fn random_index(n: usize) -> (r: usize)
    requires
        n > 0,
    ensures
        r < n,
{
    fastrand::usize(..n)
}

/// Draws a number below `n` with `fastrand::u64`, which draws uniformly and so
/// below the end of the range. It panics on an empty range.
#[verifier::external_body]
fn random_below(n: u64) -> (r: u64)
    requires
        n > 0,
    ensures
        r < n,
{
    fastrand::u64(..n)
}

proof fn lemma_totals(cand: Seq<usize>, eff: Seq<u64>, n: int)
    requires
        0 <= n <= cand.len(),
        in_range(cand, eff.len()),
        forall|i: int| 0 <= i < eff.len() ==> (#[trigger] eff[i]) <= MAX_EFFECTIVE,
    ensures
        0 <= total_upto(cand, eff, n) <= n * 100_000_000_000_000,
    decreases n,
{
    if n > 0 {
        lemma_totals(cand, eff, n - 1);
        let e = eff[cand[n - 1] as int];
        assert(0 <= e * e <= 100_000_000_000_000) by (nonlinear_arith)
            requires
                0 <= e <= 10_000_000,
        ;
    }
}

proof fn lemma_totals_grow(cand: Seq<usize>, eff: Seq<u64>, a: int, b: int)
    requires
        0 <= a <= b <= cand.len(),
        in_range(cand, eff.len()),
    ensures
        total_upto(cand, eff, a) <= total_upto(cand, eff, b),
    decreases b - a,
{
    if a < b {
        lemma_totals_grow(cand, eff, a, b - 1);
        let e = eff[cand[b - 1] as int];
        assert(0 <= e * e) by (nonlinear_arith);
    }
}

proof fn lemma_draw(cand: Seq<usize>, eff: Seq<u64>, x: int, p: int)
    requires
        0 <= p < cand.len(),
        in_range(cand, eff.len()),
        0 <= x < total_upto(cand, eff, cand.len() as int) - total_upto(cand, eff, p),
    ensures
        exists|q: int|
            p <= q < cand.len() && #[trigger] cand[q] == draw_from(cand, eff, x, p) && total_upto(
                cand,
                eff,
                q,
            ) <= x + total_upto(cand, eff, p) < total_upto(cand, eff, q + 1),
    decreases cand.len() - p,
{
    if x < weight(eff, cand[p]) {
        assert(cand[p] == draw_from(cand, eff, x, p));
        assert(total_upto(cand, eff, p + 1) == total_upto(cand, eff, p) + weight(eff, cand[p]));
    } else {
        lemma_draw(cand, eff, x - weight(eff, cand[p]), p + 1);
        let q = choose|q: int|
            p + 1 <= q < cand.len() && #[trigger] cand[q] == draw_from(
                cand,
                eff,
                x - weight(eff, cand[p]),
                p + 1,
            ) && total_upto(cand, eff, q) <= x - weight(eff, cand[p]) + total_upto(
                cand,
                eff,
                p + 1,
            ) < total_upto(cand, eff, q + 1);
        assert(cand[q] == draw_from(cand, eff, x, p));
    }
}

/// A number falls on the candidate in whose interval it lies. The intervals lie
/// end to end, and each is as long as the square of the candidate's score: of two
/// candidates, one of twice the score is drawn four times as often.
pub proof fn each_candidate_has_an_interval(cand: Seq<usize>, eff: Seq<u64>, x: int, p: int)
    requires
        in_range(cand, eff.len()),
        0 <= p < cand.len(),
        total_upto(cand, eff, p) <= x < total_upto(cand, eff, p + 1),
    ensures
        0 <= x < draws(cand, eff),
        drawn(cand, eff, x) == cand[p],
        total_upto(cand, eff, p + 1) - total_upto(cand, eff, p) == eff[cand[p] as int]
            * eff[cand[p] as int],
{
    lemma_totals_grow(cand, eff, p + 1, cand.len() as int);
    lemma_totals_grow(cand, eff, 0, p);
    lemma_draw(cand, eff, x, 0);
    let q = choose|q: int|
        0 <= q < cand.len() && #[trigger] cand[q] == draw_from(cand, eff, x, 0) && total_upto(
            cand,
            eff,
            q,
        ) <= x + total_upto(cand, eff, 0) < total_upto(cand, eff, q + 1);
    if q < p {
        lemma_totals_grow(cand, eff, q + 1, p);
    } else if q > p {
        lemma_totals_grow(cand, eff, p + 1, q);
    }
}

/// What is drawn is a candidate.
pub proof fn drawn_is_a_candidate(cand: Seq<usize>, eff: Seq<u64>, x: int)
    requires
        in_range(cand, eff.len()),
        0 <= x < draws(cand, eff),
    ensures
        cand.contains(drawn(cand, eff, x)),
{
    if total_upto(cand, eff, cand.len() as int) != 0 {
        if cand.len() > 0 {
            lemma_draw(cand, eff, x, 0);
        }
    }
}

proof fn lemma_last_best(cand: Seq<usize>, eff: Seq<u64>, n: int)
    requires
        1 <= n <= cand.len(),
    ensures
        0 <= last_best(cand, eff, n) < n,
        forall|k: int|
            0 <= k < n ==> eff[(#[trigger] cand[k]) as int] <= eff[cand[last_best(
                cand,
                eff,
                n,
            )] as int],
    decreases n,
{
    if n > 1 {
        lemma_last_best(cand, eff, n - 1);
    }
}

proof fn lemma_position_of(items: Seq<Upstream>, cand: Seq<usize>, id: Seq<char>, from: int)
    requires
        0 <= from <= cand.len(),
    ensures
        position_of(items, cand, id, from) matches Some(p) ==> from <= p < cand.len()
            && items[cand[p] as int].id@ == id,
    decreases cand.len() - from,
{
    if from < cand.len() && items[cand[from] as int].id@ != id {
        lemma_position_of(items, cand, id, from + 1);
    }
}

/// Whoever is chosen is a candidate, and somebody is chosen when there is one.
pub proof fn choice_is_a_candidate(
    before: UpstreamSet,
    after: UpstreamSet,
    cand: Seq<usize>,
    group: Seq<char>,
    eff: Seq<u64>,
    x: int,
    r: Option<usize>,
)
    requires
        in_range(cand, before.items@.len()),
        scores_fit(before.items@, cand, eff),
        before.chooses(after, cand, group, eff, x, r),
    ensures
        r is Some <==> cand.len() > 0,
        r matches Some(i) ==> cand.contains(i),
{
    if let Some(id) = before.sticky(group) {
        lemma_position_of(before.items@, cand, id, 0);
    }
    match plan_of(before.items@, cand, before.sticky(group), before.tolerance, eff) {
        PickPlan::Nobody => {},
        PickPlan::Keep(i) => {
            if cand.len() == 1 {
                assert(cand[0] == i);
            }
        },
        PickPlan::Draw(_) => {
            drawn_is_a_candidate(cand, eff, x);
        },
    }
}

/// A group keeps the server it used last while no candidate is better by more
/// than the tolerance.
pub proof fn group_keeps_its_server(
    before: UpstreamSet,
    after: UpstreamSet,
    cand: Seq<usize>,
    group: Seq<char>,
    eff: Seq<u64>,
    x: int,
    r: Option<usize>,
    i: usize,
)
    requires
        in_range(cand, before.items@.len()),
        scores_fit(before.items@, cand, eff),
        before.tolerance > 0,
        cand.contains(i),
        before.sticky(group) == Some(before.items@[i as int].id@),
        forall|k: int|
            0 <= k < before.items@.len() && (#[trigger] before.items@[k]).id@
                == before.items@[i as int].id@ ==> k == i,
        forall|k: int|
            0 <= k < cand.len() ==> eff[(#[trigger] cand[k]) as int] <= eff[i as int]
                + before.tolerance,
        before.chooses(after, cand, group, eff, x, r),
    ensures
        r == Some(i),
        after == before,
{
    let id = before.items@[i as int].id@;
    lemma_position_of(before.items@, cand, id, 0);
    lemma_last_best(cand, eff, cand.len() as int);
    let k = choose|k: int| 0 <= k < cand.len() && cand[k] == i;
    lemma_position_exists(before.items@, cand, id, 0, k);
}

proof fn lemma_position_exists(
    items: Seq<Upstream>,
    cand: Seq<usize>,
    id: Seq<char>,
    from: int,
    k: int,
)
    requires
        0 <= from <= k < cand.len(),
        items[cand[k] as int].id@ == id,
    ensures
        position_of(items, cand, id, from) is Some,
    decreases k - from,
{
    if from < k && items[cand[from] as int].id@ != id {
        lemma_position_exists(items, cand, id, from + 1, k);
    }
}

/// What one group chose says nothing about another: the last choice of every
/// other group stays.
pub proof fn groups_choose_apart(
    before: UpstreamSet,
    after: UpstreamSet,
    cand: Seq<usize>,
    group: Seq<char>,
    eff: Seq<u64>,
    x: int,
    r: Option<usize>,
    other: Seq<char>,
)
    requires
        before.chooses(after, cand, group, eff, x, r),
        other != group,
    ensures
        after.sticky(other) == before.sticky(other),
{
}

proof fn lemma_choice_set(current: Seq<GroupChoice>, i: int, c: GroupChoice, g: Seq<char>, from: int)
    requires
        0 <= from <= i < current.len(),
        current[i].group@ == c.group@,
        forall|k: int| 0 <= k < i ==> (#[trigger] current[k]).group@ != c.group@,
    ensures
        choice_from(current.update(i, c), g, from) == if g == c.group@ {
            Some(c.id@)
        } else {
            choice_from(current, g, from)
        },
    decreases i - from,
{
    if from < i {
        assert(current.update(i, c)[from] == current[from]);
        lemma_choice_set(current, i, c, g, from + 1);
    } else {
        lemma_choice_suffix(current.update(i, c), current, g, i + 1);
    }
}

proof fn lemma_choice_suffix(a: Seq<GroupChoice>, b: Seq<GroupChoice>, g: Seq<char>, from: int)
    requires
        0 <= from,
        a.len() == b.len(),
        forall|k: int| from <= k < a.len() ==> a[k] == b[k],
    ensures
        choice_from(a, g, from) == choice_from(b, g, from),
    decreases a.len() - from,
{
    if from < a.len() {
        lemma_choice_suffix(a, b, g, from + 1);
    }
}

proof fn lemma_choice_push(current: Seq<GroupChoice>, c: GroupChoice, g: Seq<char>, from: int)
    requires
        0 <= from <= current.len(),
        forall|k: int| 0 <= k < current.len() ==> (#[trigger] current[k]).group@ != c.group@,
    ensures
        choice_from(current.push(c), g, from) == if g == c.group@ {
            Some(c.id@)
        } else {
            choice_from(current, g, from)
        },
    decreases current.len() - from,
{
    if from < current.len() {
        assert(current.push(c)[from] == current[from]);
        lemma_choice_push(current, c, g, from + 1);
    } else {
        assert(current.push(c)[from] == c);
        assert(choice_from(current.push(c), g, from + 1) is None);
    }
}

/// A server with a share of QUIC.
pub open spec fn with_quic_weight(u: Upstream, w: u32) -> Upstream {
    Upstream {
        quic_weight: if w <= 100 {
            w
        } else {
            100
        },
        ..u
    }
}

/// The first server from `from` on with a name.
pub open spec fn server_named(items: Seq<Upstream>, id: Seq<char>, from: int) -> Option<usize>
    decreases items.len() - from,
{
    if from < 0 || from >= items.len() {
        None
    } else if items[from].id@ == id {
        Some(from as usize)
    } else {
        server_named(items, id, from + 1)
    }
}

/// A set after a report of a link: `downlink` for the downlink, anything else for
/// the uplink. Reports of unknown servers change nothing.
pub open spec fn items_after_report(
    items: Seq<Upstream>,
    id: Seq<char>,
    link: Option<Seq<char>>,
    score: Option<u32>,
    now: u64,
) -> Seq<Upstream> {
    match server_named(items, id, 0) {
        None => items,
        Some(i) => {
            let u = items[i as int];
            items.update(
                i as int,
                if link == Some("downlink"@) {
                    Upstream {
                        quic_downlink_score: link_score_after(
                            u.quic_downlink_score,
                            u.quic_downlink_last_update_secs,
                            score,
                            now,
                        ),
                        quic_downlink_last_update_secs: link_time_after(
                            u.quic_downlink_last_update_secs,
                            score,
                            now,
                        ),
                        ..u
                    }
                } else {
                    Upstream {
                        quic_uplink_score: link_score_after(
                            u.quic_uplink_score,
                            u.quic_uplink_last_update_secs,
                            score,
                            now,
                        ),
                        quic_uplink_last_update_secs: link_time_after(
                            u.quic_uplink_last_update_secs,
                            score,
                            now,
                        ),
                        ..u
                    }
                },
            )
        },
    }
}

impl UpstreamSet {
    /// A set of servers, none of which was used yet. All get the same share of
    /// QUIC.
    pub fn new(items: Vec<Upstream>, tolerance: u32, quic_weight: u32) -> (r: Result<
        Self,
        EmptySetError,
    >)
        ensures
            r is Err <==> items@.len() == 0,
            r matches Ok(set) ==> {
                &&& set.items@ == items@.map_values(|u: Upstream| with_quic_weight(u, quic_weight))
                &&& set.current@.len() == 0
                &&& set.tolerance == tolerance
                &&& set.wf()
            },
    {
        if items.len() == 0 {
            return Err(EmptySetError);
        }
        let mut items = items;
        let ghost start = items@;
        let mut i: usize = 0;
        while i < items.len()
            invariant
                i <= items@.len(),
                items@.len() == start.len(),
                forall|k: int| 0 <= k < i ==> items@[k] == with_quic_weight(start[k], quic_weight),
                forall|k: int| i <= k < start.len() ==> items@[k] == start[k],
            decreases items@.len() - i,
        {
            items[i].set_quic_weight(quic_weight);
            i += 1;
        }
        assert(items@ =~= start.map_values(|u: Upstream| with_quic_weight(u, quic_weight)));
        Ok(UpstreamSet { items, current: Vec::new(), tolerance })
    }

    /// The servers of the set, in order.
    pub fn iter(&self) -> (r: &Vec<Upstream>)
        ensures
            *r == self.items,
    {
        &self.items
    }

    /// Where the server of a name is.
    pub fn find_by_id(&self, id: &str) -> (r: Option<usize>)
        ensures
            r == server_named(self.items@, id@, 0),
            r matches Some(i) ==> i < self.items@.len() && self.items@[i as int].id@ == id@,
            r is None ==> forall|k: int| 0 <= k < self.items@.len() ==> (#[trigger] self.items@[k]).id@ != id@,
    {
        let mut i: usize = 0;
        while i < self.items.len()
            invariant
                i <= self.items@.len(),
                server_named(self.items@, id@, 0) == server_named(self.items@, id@, i as int),
                forall|k: int| 0 <= k < i ==> (#[trigger] self.items@[k]).id@ != id@,
            decreases self.items@.len() - i,
        {
            if text::str_eq(self.items[i].id.as_str(), id) {
                return Some(i);
            }
            i += 1;
        }
        None
    }

    /// The members of a group.
    pub fn group_members(&self, group: &str) -> (r: Vec<usize>)
        ensures
            r@ == self.group(group@),
            in_range(r@, self.items@.len()),
    {
        let mut out: Vec<usize> = Vec::new();
        let mut i: usize = 0;
        while i < self.items.len()
            invariant
                i <= self.items.len(),
                out@ == members_upto(self.items@, group@, i as int),
            decreases self.items@.len() - i,
        {
            let ghost before = out@;
            let mut j: usize = 0;
            assert(out@ =~= before + Seq::new(
                hits(self.items@[i as int].groups@, group@, 0),
                |k: int| i,
            ));
            while j < self.items[i as usize].groups.len()
                invariant
                    i < self.items.len(),
                    j <= self.items@[i as int].groups@.len(),
                    out@ == before + Seq::new(
                        hits(self.items@[i as int].groups@, group@, j as int),
                        |k: int| i,
                    ),
                decreases self.items@[i as int].groups@.len() - j,
            {
                if text::str_eq(self.items[i].groups[j].as_str(), group) {
                    out.push(i);
                }
                assert(out@ =~= before + Seq::new(
                    hits(self.items@[i as int].groups@, group@, j + 1),
                    |k: int| i,
                ));
                j += 1;
            }
            assert(out@ =~= members_upto(self.items@, group@, i + 1));
            i += 1;
        }
        proof {
            lemma_members_in_range(self.items@, group@, self.items@.len() as int);
        }
        out
    }

    /// The candidates without those of the given names.
    pub fn without(&self, cand: &[usize], exclude: &[String]) -> (r: Vec<usize>)
        requires
            in_range(cand@, self.items@.len()),
        ensures
            r@ == kept(self.items@, cand@, exclude@),
            in_range(r@, self.items@.len()),
            r@.len() <= cand@.len(),
    {
        let mut out: Vec<usize> = Vec::new();
        let mut i: usize = 0;
        while i < cand.len()
            invariant
                i <= cand.len(),
                in_range(cand@, self.items@.len()),
                out@ == kept_upto(self.items@, cand@, exclude@, i as int),
            decreases cand@.len() - i,
        {
            let k = cand[i];
            if !text::list_contains(exclude, self.items[k].id.as_str()) {
                out.push(k);
            }
            i += 1;
        }
        proof {
            lemma_kept_in_range(self.items@, cand@, exclude@, cand@.len() as int);
        }
        out
    }

    fn sticky_id(&self, group: &str) -> (r: Option<usize>)
        ensures
            match r {
                Some(i) => i < self.current@.len() && self.sticky(group@) == Some(
                    self.current@[i as int].id@,
                ) && self.current@[i as int].group@ == group@ && forall|k: int|
                    0 <= k < i ==> (#[trigger] self.current@[k]).group@ != group@,
                None => self.sticky(group@) is None && forall|k: int|
                    0 <= k < self.current@.len() ==> (#[trigger] self.current@[k]).group@ != group@,
            },
    {
        let mut i: usize = 0;
        while i < self.current.len()
            invariant
                i <= self.current@.len(),
                self.sticky(group@) == choice_from(self.current@, group@, i as int),
                forall|k: int| 0 <= k < i ==> (#[trigger] self.current@[k]).group@ != group@,
            decreases self.current@.len() - i,
        {
            if text::str_eq(self.current[i].group.as_str(), group) {
                return Some(i);
            }
            i += 1;
        }
        None
    }

    fn remember(&mut self, group: &str, id: String)
        ensures
            old(self).remembers(*final(self), group@, id@),
    {
        let ghost before = self.current@;
        match self.sticky_id(group) {
            Some(i) => {
                let c = GroupChoice { group: text::copy_str(group), id };
                proof {
                    assert forall|g: Seq<char>|
                        #[trigger] choice_from(before.update(i as int, c), g, 0) == if g == group@ {
                            Some(id@)
                        } else {
                            choice_from(before, g, 0)
                        } by {
                        lemma_choice_set(before, i as int, c, g, 0);
                    }
                }
                self.current.set(i, c);
            },
            None => {
                let c = GroupChoice { group: text::copy_str(group), id };
                proof {
                    assert forall|g: Seq<char>|
                        #[trigger] choice_from(before.push(c), g, 0) == if g == group@ {
                            Some(id@)
                        } else {
                            choice_from(before, g, 0)
                        } by {
                        lemma_choice_push(before, c, g, 0);
                    }
                }
                self.current.push(c);
            },
        }
    }

    fn find_position(&self, cand: &[usize], id: &str) -> (r: Option<usize>)
        requires
            in_range(cand@, self.items@.len()),
        ensures
            match r {
                Some(p) => position_of(self.items@, cand@, id@, 0) == Some(p as int) && p
                    < cand@.len(),
                None => position_of(self.items@, cand@, id@, 0) is None,
            },
    {
        let mut i: usize = 0;
        while i < cand.len()
            invariant
                i <= cand@.len(),
                in_range(cand@, self.items@.len()),
                position_of(self.items@, cand@, id@, 0) == position_of(
                    self.items@,
                    cand@,
                    id@,
                    i as int,
                ),
            decreases cand@.len() - i,
        {
            if text::str_eq(self.items[cand[i]].id.as_str(), id) {
                return Some(i);
            }
            i += 1;
        }
        None
    }

    /// The plan for a choice of a group among candidates, by a score for each
    /// server.
    pub fn plan(&self, cand: &[usize], group: &str, eff: &[u64]) -> (r: PickPlan)
        requires
            in_range(cand@, self.items@.len()),
            scores_fit(self.items@, cand@, eff@),
        ensures
            r == plan_of(self.items@, cand@, self.sticky(group@), self.tolerance, eff@),
    {
        if cand.len() == 0 {
            return PickPlan::Nobody;
        }
        if cand.len() == 1 {
            return PickPlan::Keep(cand[0]);
        }
        let mut best: usize = 0;
        let mut total: u64 = 0;
        let mut i: usize = 0;
        while i < cand.len()
            invariant
                i <= cand@.len(),
                best < cand@.len(),
                in_range(cand@, self.items@.len()),
                scores_fit(self.items@, cand@, eff@),
                best == last_best(cand@, eff@, i as int),
                total == total_upto(cand@, eff@, i as int),
            decreases cand@.len() - i,
        {
            proof {
                lemma_totals(cand@, eff@, i as int);
                lemma_totals(cand@, eff@, i + 1);
                let e = eff@[cand@[i as int] as int];
                assert(0 <= e * e <= 100_000_000_000_000) by (nonlinear_arith)
                    requires
                        0 <= e <= 10_000_000,
                ;
            }
            let e = eff[cand[i]];
            if e >= eff[cand[best]] {
                best = i;
            }
            total = total + e * e;
            i += 1;
        }
        if self.tolerance == 0 {
            return PickPlan::Draw(total);
        }
        match self.sticky_id(group) {
            None => PickPlan::Draw(total),
            Some(c) => match self.find_position(cand, self.current[c].id.as_str()) {
                None => PickPlan::Draw(total),
                Some(p) => {
                    let cur = cand[p];
                    let top = cand[best];
                    if !text::str_eq(self.items[top].id.as_str(), self.items[cur].id.as_str())
                        && eff[top] > eff[cur] + self.tolerance as u64 {
                        PickPlan::Draw(total)
                    } else {
                        PickPlan::Keep(cur)
                    }
                },
            },
        }
    }

    /// The candidate that a number falls on.
    pub fn draw(&self, cand: &[usize], eff: &[u64], x: u64) -> (r: usize)
        requires
            in_range(cand@, self.items@.len()),
            scores_fit(self.items@, cand@, eff@),
            x < draws(cand@, eff@),
            total_upto(cand@, eff@, cand@.len() as int) == 0 ==> x <= usize::MAX,
        ensures
            r == drawn(cand@, eff@, x as int),
            cand@.contains(r),
    {
        proof {
            lemma_totals(cand@, eff@, cand@.len() as int);
            drawn_is_a_candidate(cand@, eff@, x as int);
        }
        let mut left: u64 = x;
        let mut i: usize = 0;
        let ghost total = total_upto(cand@, eff@, cand@.len() as int);
        while i < cand.len()
            invariant
                i <= cand@.len(),
                in_range(cand@, self.items@.len()),
                scores_fit(self.items@, cand@, eff@),
                total == total_upto(cand@, eff@, cand@.len() as int),
                total != 0 ==> draw_from(cand@, eff@, x as int, 0) == draw_from(
                    cand@,
                    eff@,
                    left as int,
                    i as int,
                ),
                total_upto(cand@, eff@, i as int) == x - left,
                total == 0 ==> left == x,
                total == 0 ==> drawn(cand@, eff@, x as int) == cand@[x as int],
                cand@.contains(drawn(cand@, eff@, x as int)),
            decreases cand@.len() - i,
        {
            let e = eff[cand[i]];
            assert(0 <= e * e <= 100_000_000_000_000) by (nonlinear_arith)
                requires
                    0 <= e <= 10_000_000,
            ;
            proof {
                lemma_totals_grow(cand@, eff@, i + 1, cand@.len() as int);
                lemma_totals_grow(cand@, eff@, 0, i as int);
            }
            if left < e * e {
                return cand[i];
            }
            left = left - e * e;
            i += 1;
        }
        proof {
            if total != 0 {
                assert(total_upto(cand@, eff@, i as int) == total);
                assert(false);
            }
        }
        cand[x as usize]
    }

    /// Finishes a choice that draws, with the number that was drawn.
    pub fn settle(&mut self, cand: &[usize], group: &str, eff: &[u64], x: u64) -> (r: usize)
        requires
            in_range(cand@, old(self).items@.len()),
            scores_fit(old(self).items@, cand@, eff@),
            plan_of(
                old(self).items@,
                cand@,
                old(self).sticky(group@),
                old(self).tolerance,
                eff@,
            ) is Draw,
            x < draws(cand@, eff@),
            total_upto(cand@, eff@, cand@.len() as int) == 0 ==> x <= usize::MAX,
        ensures
            old(self).chooses(*final(self), cand@, group@, eff@, x as int, Some(r)),
            cand@.contains(r),
    {
        let i = self.draw(cand, eff, x);
        let id = text::copy_str(self.items[i].id.as_str());
        self.remember(group, id);
        i
    }

    fn pick_weighted(&mut self, cand: &[usize], group: &str, eff: &[u64]) -> (r: Option<usize>)
        requires
            in_range(cand@, old(self).items@.len()),
            scores_fit(old(self).items@, cand@, eff@),
        ensures
            exists|x: int|
                #[trigger] old(self).chooses(*final(self), cand@, group@, eff@, x, r),
            r is Some <==> cand@.len() > 0,
            r matches Some(i) ==> i < old(self).items@.len() && cand@.contains(i),
    {
        let ghost before = *self;
        proof {
            lemma_totals(cand@, eff@, cand@.len() as int);
        }
        let r = match self.plan(cand, group, eff) {
            PickPlan::Nobody => {
                assert(before.chooses(*self, cand@, group@, eff@, 0, None));
                None
            },
            PickPlan::Keep(i) => {
                assert(before.chooses(*self, cand@, group@, eff@, 0, Some(i)));
                Some(i)
            },
            PickPlan::Draw(total) => {
                let x: u64 = if total == 0 {
                    random_index(cand.len()) as u64
                } else {
                    random_below(total)
                };
                let i = self.settle(cand, group, eff, x);
                Some(i)
            },
        };
        proof {
            let x = choose|x: int| #[trigger] before.chooses(*self, cand@, group@, eff@, x, r);
            choice_is_a_candidate(before, *self, cand@, group@, eff@, x, r);
        }
        r
    }

    /// Chooses a server of the group `default`.
    pub fn pick(&mut self, eff: &[u64]) -> (r: Option<usize>)
        requires
            scores_fit(old(self).items@, old(self).group("default"@), eff@),
        ensures
            exists|x: int|
                #[trigger] old(self).chooses(
                    *final(self),
                    old(self).group("default"@),
                    "default"@,
                    eff@,
                    x,
                    r,
                ),
            r is Some <==> old(self).group("default"@).len() > 0,
            r matches Some(i) ==> i < old(self).items@.len() && old(self).group(
                "default"@,
            ).contains(i),
    {
        self.pick_from_group("default", eff)
    }

    /// Chooses a server of a group, by a score for each server: the one that the
    /// group used last, or one at random by the squares of the scores.
    pub fn pick_from_group(&mut self, group: &str, eff: &[u64]) -> (r: Option<usize>)
        requires
            scores_fit(old(self).items@, old(self).group(group@), eff@),
        ensures
            exists|x: int|
                #[trigger] old(self).chooses(
                    *final(self),
                    old(self).group(group@),
                    group@,
                    eff@,
                    x,
                    r,
                ),
            r is Some <==> old(self).group(group@).len() > 0,
            r matches Some(i) ==> i < old(self).items@.len() && old(self).group(group@).contains(i),
    {
        let cand = self.group_members(group);
        self.pick_weighted(cand.as_slice(), group, eff)
    }

    /// Chooses a server of a group that is none of the excluded.
    pub fn pick_excluding_many_from_group(
        &mut self,
        group: &str,
        exclude: &[String],
        eff: &[u64],
    ) -> (r: Option<usize>)
        requires
            scores_fit(old(self).items@, old(self).group(group@), eff@),
        ensures
            exists|x: int|
                #[trigger] old(self).chooses(
                    *final(self),
                    kept(old(self).items@, old(self).group(group@), exclude@),
                    group@,
                    eff@,
                    x,
                    r,
                ),
            r is Some <==> kept(old(self).items@, old(self).group(group@), exclude@).len() > 0,
            r matches Some(i) ==> i < old(self).items@.len() && kept(
                old(self).items@,
                old(self).group(group@),
                exclude@,
            ).contains(i),
    {
        let all = self.group_members(group);
        let cand = self.without(all.as_slice(), exclude);
        self.pick_weighted(cand.as_slice(), group, eff)
    }

    /// Takes a report of a link at `now`: its server, its direction, and the score
    /// of the probe. While scoring is off, nothing changes.
    pub fn apply_report(
        &mut self,
        disabled: bool,
        id: &str,
        link: Option<&str>,
        score: Option<u32>,
        now: u64,
    )
        ensures
            final(self).current == old(self).current,
            final(self).tolerance == old(self).tolerance,
            final(self).items@ == if disabled {
                old(self).items@
            } else {
                items_after_report(old(self).items@, id@, text::opt_text(link), score, now)
            },
            old(self).wf() ==> final(self).wf(),
    {
        if disabled {
            return;
        }
        match self.find_by_id(id) {
            None => {},
            Some(i) => {
                let down = match link {
                    Some(l) => text::str_eq(l, "downlink"),
                    None => false,
                };
                if down {
                    self.items[i].update_downlink_score_at(score, now);
                } else {
                    self.items[i].update_uplink_score_at(score, now);
                }
            },
        }
    }
}

/// How many groups the first `n` servers name together.
pub open spec fn named_groups(items: Seq<Upstream>, n: int) -> int
    decreases n,
{
    if n <= 0 {
        0
    } else {
        named_groups(items, n - 1) + items[n - 1].groups@.len()
    }
}

proof fn lemma_hits_bound(groups: Seq<String>, group: Seq<char>, n: int)
    requires
        0 <= n,
    ensures
        hits(groups, group, n) <= n,
    decreases n,
{
    if n > 0 {
        lemma_hits_bound(groups, group, n - 1);
    }
}

proof fn lemma_members_bound(items: Seq<Upstream>, group: Seq<char>, n: int)
    requires
        0 <= n <= items.len(),
    ensures
        members_upto(items, group, n).len() <= named_groups(items, n),
    decreases n,
{
    if n > 0 {
        lemma_members_bound(items, group, n - 1);
        lemma_hits_bound(items[n - 1].groups@, group, items[n - 1].groups@.len() as int);
    }
}

/// One score for each server, each within bounds.
pub open spec fn scores_match(items: Seq<Upstream>, eff: Seq<u64>) -> bool {
    &&& eff.len() == items.len()
    &&& forall|i: int| 0 <= i < eff.len() ==> (#[trigger] eff[i]) <= MAX_EFFECTIVE
}

/// Without the servers of no names, all are left.
pub proof fn nobody_excluded(items: Seq<Upstream>, cand: Seq<usize>, exclude: Seq<String>)
    requires
        exclude.len() == 0,
    ensures
        kept(items, cand, exclude) == cand,
{
    lemma_nobody_excluded(items, cand, exclude, cand.len() as int);
    assert(cand.take(cand.len() as int) =~= cand);
}

proof fn lemma_nobody_excluded(
    items: Seq<Upstream>,
    cand: Seq<usize>,
    exclude: Seq<String>,
    n: int,
)
    requires
        exclude.len() == 0,
        0 <= n <= cand.len(),
    ensures
        kept_upto(items, cand, exclude, n) == cand.take(n),
    decreases n,
{
    if n > 0 {
        lemma_nobody_excluded(items, cand, exclude, n - 1);
        assert(cand.take(n) =~= cand.take(n - 1).push(cand[n - 1]));
    } else {
        assert(cand.take(0) =~= Seq::empty());
    }
}

proof fn lemma_kept_shrinks(
    items: Seq<Upstream>,
    cand: Seq<usize>,
    exclude: Seq<String>,
    id: String,
    n: int,
)
    requires
        0 <= n <= cand.len(),
    ensures
        ({
            let fewer = kept_upto(items, cand, exclude.push(id), n);
            let more = kept_upto(items, cand, exclude, n);
            &&& fewer.len() <= more.len()
            &&& (exists|k: int|
                0 <= k < more.len() && items[(#[trigger] more[k]) as int].id@ == id@)
                ==> fewer.len() < more.len()
        }),
    decreases n,
{
    if n > 0 {
        lemma_kept_shrinks(items, cand, exclude, id, n - 1);
        let a = text::names(exclude);
        let b = text::names(exclude.push(id));
        let name = items[cand[n - 1] as int].id@;
        assert(b =~= a.push(id@));
        if a.contains(name) {
            let k = choose|k: int| 0 <= k < a.len() && a[k] == name;
            assert(b[k] == name);
        }
        if name == id@ {
            assert(b[a.len() as int] == name);
        }
        if b.contains(name) && name != id@ {
            let k = choose|k: int| 0 <= k < b.len() && b[k] == name;
            assert(a[k] == name);
        }
        let fewer = kept_upto(items, cand, exclude.push(id), n - 1);
        let more = kept_upto(items, cand, exclude, n - 1);
        let now = kept_upto(items, cand, exclude, n);
        if exists|k: int| 0 <= k < now.len() && items[(#[trigger] now[k]) as int].id@ == id@ {
            let k = choose|k: int| 0 <= k < now.len() && items[(#[trigger] now[k]) as int].id@ == id@;
            if k < more.len() {
                assert(more[k] == now[k]);
            }
        }
    }
}

/// To exclude a candidate leaves fewer of them.
pub proof fn excluding_leaves_fewer(
    items: Seq<Upstream>,
    cand: Seq<usize>,
    exclude: Seq<String>,
    i: usize,
    id: String,
)
    requires
        in_range(cand, items.len()),
        kept(items, cand, exclude).contains(i),
        id@ == items[i as int].id@,
    ensures
        kept(items, cand, exclude.push(id)).len() < kept(items, cand, exclude).len(),
{
    lemma_kept_shrinks(items, cand, exclude, id, cand.len() as int);
    let more = kept(items, cand, exclude);
    let k = choose|k: int| 0 <= k < more.len() && more[k] == i;
    assert(items[more[k] as int].id@ == id@);
}

impl UpstreamSet {
    /// No group has too many members.
    pub open spec fn groups_fit(self) -> bool {
        forall|g: Seq<char>| (#[trigger] self.group(g)).len() <= MAX_CANDIDATES
    }

    /// Whether the servers name few enough groups that the weights of a group's
    /// members can be added up.
    pub fn has_small_groups(&self) -> (r: bool)
        ensures
            r == (named_groups(self.items@, self.items@.len() as int) <= MAX_CANDIDATES),
            r ==> self.groups_fit(),
    {
        let mut total: usize = 0;
        let mut i: usize = 0;
        while i < self.items.len()
            invariant
                i <= self.items.len(),
                total == named_groups(self.items@, i as int),
                total <= MAX_CANDIDATES,
            decreases self.items@.len() - i,
        {
            let n = self.items[i].groups.len();
            if n > MAX_CANDIDATES - total {
                proof {
                    lemma_named_groups_grow(self.items@, i + 1, self.items@.len() as int);
                }
                return false;
            }
            total = total + n;
            i += 1;
        }
        proof {
            assert forall|g: Seq<char>| (#[trigger] self.group(g)).len() <= MAX_CANDIDATES by {
                lemma_members_bound(self.items@, g, self.items@.len() as int);
            }
        }
        true
    }
}

proof fn lemma_named_groups_grow(items: Seq<Upstream>, a: int, b: int)
    requires
        0 <= a <= b <= items.len(),
    ensures
        named_groups(items, a) <= named_groups(items, b),
    decreases b - a,
{
    if a < b {
        lemma_named_groups_grow(items, a, b - 1);
    }
}

// ---------------------------------------------------------------------------
// Who is a candidate, and who is chosen
// ---------------------------------------------------------------------------

/// The candidates that are left are all of those that were there but the ones of the
/// excluded names, in the same order.
pub proof fn exclusion_keeps_all_others(items: Seq<Upstream>, cand: Seq<usize>, exclude: Seq<String>)
    ensures
        kept(items, cand, exclude) == cand.filter(
            |i: usize| !text::names(exclude).contains(items[i as int].id@),
        ),
{
    lemma_kept_is_filter(items, cand, exclude, cand.len() as int);
    assert(cand.take(cand.len() as int) =~= cand);
}

proof fn lemma_kept_is_filter(
    items: Seq<Upstream>,
    cand: Seq<usize>,
    exclude: Seq<String>,
    n: int,
)
    requires
        0 <= n <= cand.len(),
    ensures
        kept_upto(items, cand, exclude, n) == cand.take(n).filter(
            |i: usize| !text::names(exclude).contains(items[i as int].id@),
        ),
    decreases n,
{
    reveal(Seq::filter);
    if n > 0 {
        lemma_kept_is_filter(items, cand, exclude, n - 1);
        assert(cand.take(n).drop_last() =~= cand.take(n - 1));
        assert(cand.take(n).last() == cand[n - 1]);
    }
}

/// A server is a member of a group as often as it names the group.
pub proof fn members_count_as_often_as_they_say(items: Seq<Upstream>, group: Seq<char>, i: usize)
    requires
        items.len() <= usize::MAX,
        i < items.len(),
    ensures
        members(items, group).filter(|k: usize| k == i).len() == text::names(
            items[i as int].groups@,
        ).filter(|g: Seq<char>| g == group).len(),
{
    lemma_member_count(items, group, i, items.len() as int);
    lemma_hits_is_filter(
        items[i as int].groups@,
        group,
        items[i as int].groups@.len() as int,
    );
    let names = text::names(items[i as int].groups@);
    assert(names.take(names.len() as int) =~= names);
}

proof fn lemma_hits_is_filter(groups: Seq<String>, group: Seq<char>, n: int)
    requires
        0 <= n <= groups.len(),
    ensures
        hits(groups, group, n) == text::names(groups).take(n).filter(
            |g: Seq<char>| g == group,
        ).len(),
    decreases n,
{
    reveal(Seq::filter);
    if n > 0 {
        let names = text::names(groups);
        lemma_hits_is_filter(groups, group, n - 1);
        assert(names.take(n).drop_last() =~= names.take(n - 1));
        assert(names.take(n).last() == groups[n - 1]@);
    }
}

proof fn lemma_all_alike(k: usize, n: nat, i: usize)
    ensures
        Seq::new(n, |j: int| k).filter(|x: usize| x == i).len() == if k == i {
            n
        } else {
            0
        },
    decreases n,
{
    reveal(Seq::filter);
    let s = Seq::new(n, |j: int| k);
    if n > 0 {
        lemma_all_alike(k, (n - 1) as nat, i);
        assert(s.drop_last() =~= Seq::new((n - 1) as nat, |j: int| k));
        assert(s.last() == k);
    }
}

proof fn lemma_member_count(items: Seq<Upstream>, group: Seq<char>, i: usize, n: int)
    requires
        0 <= n <= items.len() <= usize::MAX,
        i < items.len(),
    ensures
        members_upto(items, group, n).filter(|k: usize| k == i).len() == if i < n {
            hits(items[i as int].groups@, group, items[i as int].groups@.len() as int)
        } else {
            0
        },
    decreases n,
{
    let one = |k: usize| k == i;
    if n > 0 {
        lemma_member_count(items, group, i, n - 1);
        let front = members_upto(items, group, n - 1);
        let count = hits(items[n - 1].groups@, group, items[n - 1].groups@.len() as int);
        let more = Seq::new(count, |j: int| (n - 1) as usize);
        lemma_all_alike((n - 1) as usize, count, i);
        Seq::filter_distributes_over_add(front, more, one);
        assert((front + more).filter(one).len() == front.filter(one).len() + more.filter(
            one,
        ).len());
    } else {
        reveal(Seq::filter);
    }
}

/// The candidate `k` is better by more than the tolerance than `q`, which is the only
/// one of a name.
pub open spec fn is_far_better(
    set: UpstreamSet,
    cand: Seq<usize>,
    id: Seq<char>,
    eff: Seq<u64>,
    k: int,
    q: int,
) -> bool {
    &&& 0 <= k < cand.len() && 0 <= q < cand.len()
    &&& set.items@[cand[q] as int].id@ == id
    &&& forall|j: int|
        0 <= j < cand.len() && set.items@[(#[trigger] cand[j]) as int].id@ == id ==> cand[j]
            == cand[q]
    &&& eff[cand[q] as int] + set.tolerance < eff[cand[k] as int]
}

/// A group has reason to choose anew.
pub open spec fn draws_anew(
    set: UpstreamSet,
    cand: Seq<usize>,
    group: Seq<char>,
    eff: Seq<u64>,
) -> bool {
    ||| set.tolerance == 0
    ||| set.sticky(group) is None
    ||| forall|k: int|
        0 <= k < cand.len() ==> set.items@[(#[trigger] cand[k]) as int].id@ != set.sticky(group)->0
    ||| exists|k: int, q: int| #[trigger] is_far_better(set, cand, set.sticky(group)->0, eff, k, q)
}

/// A group draws anew when it has used none of its servers yet, when the one that it
/// used is no candidate, when servers are not preferred, or when another candidate is
/// better by more than the tolerance. Whoever is drawn is the one it used last from then
/// on.
pub proof fn group_leaves_its_server(
    before: UpstreamSet,
    after: UpstreamSet,
    cand: Seq<usize>,
    group: Seq<char>,
    eff: Seq<u64>,
    x: int,
    r: Option<usize>,
    p: int,
)
    requires
        in_range(cand, before.items@.len()),
        scores_fit(before.items@, cand, eff),
        cand.len() >= 2,
        before.chooses(after, cand, group, eff, x, r),
        0 <= p < cand.len(),
        total_upto(cand, eff, p) <= x < total_upto(cand, eff, p + 1),
        draws_anew(before, cand, group, eff),
    ensures
        r == Some(cand[p]),
        after.sticky(group) == Some(before.items@[cand[p] as int].id@),
        after.items == before.items,
{
    each_candidate_has_an_interval(cand, eff, x, p);
    if before.tolerance > 0 && before.sticky(group) is Some {
        let id = before.sticky(group)->0;
        lemma_position_of(before.items@, cand, id, 0);
        lemma_last_best(cand, eff, cand.len() as int);
        if let Some(at) = position_of(before.items@, cand, id, 0) {
            assert(before.items@[cand[at] as int].id@ == id);
            let (k, q) = choose|k: int, q: int| #[trigger] is_far_better(before, cand, id, eff, k, q);
            assert(cand[at] == cand[q]);
            let best = last_best(cand, eff, cand.len() as int);
            assert(eff[cand[k] as int] <= eff[cand[best] as int]);
            if before.items@[cand[best] as int].id@ == id {
                assert(cand[best] == cand[q]);
            }
        }
    }
}

/// A single candidate is taken, and nothing is remembered of that.
pub proof fn single_candidate_is_taken(
    before: UpstreamSet,
    after: UpstreamSet,
    only: usize,
    group: Seq<char>,
    eff: Seq<u64>,
    x: int,
    r: Option<usize>,
)
    requires
        before.chooses(after, seq![only], group, eff, x, r),
    ensures
        r == Some(only),
        after == before,
{
}

/// Candidates that all score nothing are drawn alike: each has one number.
pub proof fn worthless_candidates_are_alike(cand: Seq<usize>, eff: Seq<u64>, p: int)
    requires
        in_range(cand, eff.len()),
        forall|k: int| 0 <= k < cand.len() ==> eff[(#[trigger] cand[k]) as int] == 0,
        0 <= p < cand.len(),
    ensures
        draws(cand, eff) == cand.len(),
        drawn(cand, eff, p) == cand[p],
{
    lemma_no_weight(cand, eff, cand.len() as int);
}

proof fn lemma_no_weight(cand: Seq<usize>, eff: Seq<u64>, n: int)
    requires
        0 <= n <= cand.len(),
        forall|k: int| 0 <= k < cand.len() ==> eff[(#[trigger] cand[k]) as int] == 0,
    ensures
        total_upto(cand, eff, n) == 0,
    decreases n,
{
    if n > 0 {
        lemma_no_weight(cand, eff, n - 1);
        assert(eff[cand[n - 1] as int] == 0);
    }
}

/// A report moves the link that it is for, of the server that it names, and nothing
/// else: the downlink where it says so, else the uplink.
pub proof fn reports_are_for_one_link(
    items: Seq<Upstream>,
    at: int,
    link: Option<Seq<char>>,
    score: Option<u32>,
    now: u64,
    k: int,
)
    requires
        0 <= at < items.len() <= usize::MAX,
        forall|i: int| 0 <= i < at ==> (#[trigger] items[i]).id@ != items[at].id@,
        0 <= k < items.len(),
    ensures
        ({
            let after = items_after_report(items, items[at].id@, link, score, now);
            &&& after.len() == items.len()
            &&& k != at ==> after[k] == items[k]
            &&& link == Some("downlink"@) ==> {
                &&& after[at].quic_uplink_score == items[at].quic_uplink_score
                &&& after[at].quic_uplink_last_update_secs == items[at].quic_uplink_last_update_secs
                &&& after[at].quic_downlink_score == link_score_after(
                    items[at].quic_downlink_score,
                    items[at].quic_downlink_last_update_secs,
                    score,
                    now,
                )
            }
            &&& link != Some("downlink"@) ==> {
                &&& after[at].quic_downlink_score == items[at].quic_downlink_score
                &&& after[at].quic_downlink_last_update_secs
                    == items[at].quic_downlink_last_update_secs
                &&& after[at].quic_uplink_score == link_score_after(
                    items[at].quic_uplink_score,
                    items[at].quic_uplink_last_update_secs,
                    score,
                    now,
                )
            }
            &&& after[at].tcp_score == items[at].tcp_score
            &&& after[at].id == items[at].id
        }),
{
    lemma_named_at(items, items[at].id@, 0, at);
}

proof fn lemma_named_at(items: Seq<Upstream>, id: Seq<char>, from: int, at: int)
    requires
        0 <= from <= at < items.len() <= usize::MAX,
        items[at].id@ == id,
        forall|k: int| from <= k < at ==> (#[trigger] items[k]).id@ != id,
    ensures
        server_named(items, id, from) == Some(at as usize),
    decreases at - from,
{
    if from < at {
        lemma_named_at(items, id, from + 1, at);
    }
}

/// A reply to a health check is one wherever `HTTP/1.1` stands in it.
pub proof fn replies_name_the_version(before: Seq<u8>, behind: Seq<u8>)
    ensures
        text::contains_seq(
            before + seq![72u8, 84u8, 84u8, 80u8, 47u8, 49u8, 46u8, 49u8] + behind,
            http_1_1(),
        ),
{
    let s = before + http_1_1() + behind;
    let at = before.len() as int;
    assert(s.subrange(at, at + http_1_1().len()) =~= http_1_1());
    assert(text::occurs_at(s, http_1_1(), at));
}

/// The share of QUIC that a server gets is the one that was set, and no more than all.
/// Nothing else of the server changes.
pub proof fn shares_are_percentages(u: Upstream, w: u32)
    ensures
        with_quic_weight(u, w).wf(),
        w <= 100 ==> with_quic_weight(u, w).quic_weight == w,
        w > 100 ==> with_quic_weight(u, w).quic_weight == 100,
        with_quic_weight(u, w) == (Upstream {
            quic_weight: with_quic_weight(u, w).quic_weight,
            ..u
        }),
{
}

} // verus!
