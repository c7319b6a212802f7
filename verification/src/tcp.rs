//! Where a TCP connection goes, and which servers it tries.

use crate::cache;
use crate::cache::{CacheKey, FlowKey};
use crate::net::{IpAddr, SocketAddr};
use crate::routes;
use crate::state;
use crate::state::AppState;
use crate::text;
use crate::upstream;
use crate::upstream::{Upstream, UpstreamSet};
use vstd::prelude::*;

verus! {

// ---------------------------------------------------------------------------
// Targets
// ---------------------------------------------------------------------------

/// Where a connection goes.
pub enum TcpUpstreamTarget {
    /// To its destination.
    Direct(SocketAddr),
    /// To its destination, through a server.
    Socks5Ip(SocketAddr),
    /// To a host, through a server that resolves the name.
    Socks5Domain { host: String, port: u16 },
}

/// The view of [`TcpUpstreamTarget`].
pub enum TargetView {
    Direct(SocketAddr),
    Socks5Ip(SocketAddr),
    Socks5Domain { host: Seq<char>, port: u16 },
}

impl View for TcpUpstreamTarget {
    type V = TargetView;

    open spec fn view(&self) -> TargetView {
        match *self {
            TcpUpstreamTarget::Direct(a) => TargetView::Direct(a),
            TcpUpstreamTarget::Socks5Ip(a) => TargetView::Socks5Ip(a),
            TcpUpstreamTarget::Socks5Domain { host, port } => TargetView::Socks5Domain {
                host: host@,
                port,
            },
        }
    }
}

/// Where a connection goes: a name that was found is for the server to resolve,
/// at the port of the destination.
pub open spec fn target_of(
    orig_dst: SocketAddr,
    direct: bool,
    sniffed: Option<Seq<char>>,
) -> TargetView {
    if direct {
        TargetView::Direct(orig_dst)
    } else {
        match sniffed {
            Some(host) => TargetView::Socks5Domain { host, port: orig_dst.spec_port() },
            None => TargetView::Socks5Ip(orig_dst),
        }
    }
}

/// Where a connection goes.
pub fn decide_tcp_upstream_target(
    orig_dst: SocketAddr,
    direct: bool,
    sniffed_sni: Option<&str>,
) -> (r: TcpUpstreamTarget)
    ensures
        r@ == target_of(orig_dst, direct, text::opt_text(sniffed_sni)),
{
    if direct {
        TcpUpstreamTarget::Direct(orig_dst)
    } else {
        match sniffed_sni {
            Some(host) => TcpUpstreamTarget::Socks5Domain {
                host: text::copy_str(host),
                port: orig_dst.port(),
            },
            None => TcpUpstreamTarget::Socks5Ip(orig_dst),
        }
    }
}

/// What is known of a connection before anything of it was read.
#[derive(Debug, Clone, Copy, PartialEq, Eq, Structural)]
pub struct TcpRoute {
    /// The destination alone says that it is reached directly.
    pub direct_by_ip: bool,
    /// The domain can change that.
    pub domain_decides: bool,
    /// The domain can change which servers the client uses.
    pub domain_picks_group: bool,
}

/// The domain can change whether a destination is reached directly.
pub open spec fn domain_decides(s: AppState) -> bool {
    ||| s.config.force_direct_domains@.len() > 0
    ||| s.config.force_socks5_domains@.len() > 0
    ||| s.geosite is Some && (s.config.proxy_geosite_tags@.len() > 0
        || s.config.direct_geosite_tags@.len() > 0) && s.mode() is Smart
}

/// The domain can change which servers a client uses.
pub open spec fn domain_picks_group(s: AppState, client: IpAddr) -> bool {
    s.config.client_domain_routes@.len() > 0 && routes::route_value(
        s.runtime.client_domain_routes.routes@,
        client,
    ) is Some
}

/// What is known of a connection before anything of it was read.
pub open spec fn route_of(s: AppState, client: IpAddr, dst: IpAddr) -> TcpRoute {
    TcpRoute {
        direct_by_ip: s.goes_direct(dst, None),
        domain_decides: domain_decides(s),
        domain_picks_group: domain_picks_group(s, client),
    }
}

impl TcpRoute {
    /// The connection goes to its destination, and no domain can change that.
    pub open spec fn surely_direct(self) -> bool {
        self.direct_by_ip && !self.domain_decides && !self.domain_picks_group
    }

    /// The domain is of use: it can change the decision, or the servers of a
    /// connection that goes to one.
    pub open spec fn domain_is_of_use(self) -> bool {
        self.domain_decides || (!self.direct_by_ip && self.domain_picks_group)
    }

    /// Looks at the destination and at the rules.
    pub fn first_look(state: &mut AppState, client_ip: IpAddr, dst_ip: IpAddr) -> (r: Self)
        requires
            old(state).wf(),
        ensures
            r == route_of(*old(state), client_ip, dst_ip),
            final(state).wf(),
            old(state).asked(*final(state), dst_ip, None),
            final(state).route_cache.ttl_secs == old(state).route_cache.ttl_secs,
            final(state).route_cache.max == old(state).route_cache.max,
            *final(state) == (AppState { route_cache: final(state).route_cache, ..*old(state) }),
    {
        let direct_by_ip = state.should_direct(dst_ip, None);
        let domain_decides = state.need_forced_domain_sniff() || state.need_geosite_sniff();
        let domain_picks_group = state.need_upstream_domain_sniff(client_ip);
        TcpRoute { direct_by_ip, domain_decides, domain_picks_group }
    }

    /// Whether the connection can go to its destination at once.
    pub fn is_fast_path(&self) -> (r: bool)
        ensures
            r == self.surely_direct(),
    {
        self.direct_by_ip && !self.domain_decides && !self.domain_picks_group
    }

    /// Whether to look for a domain in what the client sends first.
    pub fn wants_sniff(&self) -> (r: bool)
        ensures
            r == self.domain_is_of_use(),
    {
        self.domain_decides || (!self.direct_by_ip && self.domain_picks_group)
    }

    /// Where the connection goes, when `domain` was found or nothing was.
    pub fn final_target(
        &self,
        state: &mut AppState,
        orig_dst: SocketAddr,
        domain: Option<&str>,
    ) -> (r: TcpUpstreamTarget)
        requires
            old(state).wf(),
        ensures
            r@ == target_of(
                orig_dst,
                if self.domain_decides {
                    old(state).goes_direct(orig_dst.spec_ip(), text::opt_text(domain))
                } else {
                    self.direct_by_ip
                },
                text::opt_text(domain),
            ),
            final(state).wf(),
            if self.domain_decides {
                old(state).asked(*final(state), orig_dst.spec_ip(), text::opt_text(domain))
            } else {
                *final(state) == *old(state)
            },
            final(state).route_cache.ttl_secs == old(state).route_cache.ttl_secs,
            final(state).route_cache.max == old(state).route_cache.max,
            *final(state) == (AppState { route_cache: final(state).route_cache, ..*old(state) }),
    {
        let direct = if self.domain_decides {
            state.should_direct(orig_dst.ip(), domain)
        } else {
            self.direct_by_ip
        };
        decide_tcp_upstream_target(orig_dst, direct, domain)
    }
}

/// A connection for which no domain is looked for goes where its destination
/// alone says, and so does one in which none is found.
pub proof fn destination_decides_without_a_domain(s: AppState, client: IpAddr, dst: SocketAddr)
    ensures
        ({
            let route = route_of(s, client, dst.spec_ip());
            let direct = if route.domain_decides {
                s.goes_direct(dst.spec_ip(), None)
            } else {
                route.direct_by_ip
            };
            target_of(dst, direct, None) == if s.goes_direct(dst.spec_ip(), None) {
                TargetView::Direct(dst)
            } else {
                TargetView::Socks5Ip(dst)
            }
        }),
{
}

/// A connection that goes to its destination at once would go there whatever its
/// domain is.
pub proof fn fast_path_loses_nothing(
    s: AppState,
    client: IpAddr,
    dst: IpAddr,
    domain: Option<Seq<char>>,
)
    requires
        route_of(s, client, dst).surely_direct(),
    ensures
        s.goes_direct(dst, domain),
{
}

// ---------------------------------------------------------------------------
// Servers
// ---------------------------------------------------------------------------

/// A search for a server that answers: those of a group, then those of `default`.
pub struct GroupAttempt {
    pub group: String,
    /// The servers of the group that were tried in vain.
    pub failed: Vec<String>,
}

/// The candidates that are left.
pub open spec fn candidates(a: GroupAttempt, set: UpstreamSet) -> Seq<usize> {
    upstream::kept(set.items@, set.group(a.group@), a.failed@)
}

/// What the next choice returns and changes. When nobody is left, the search goes
/// on among all servers of `default`, and ends there.
pub open spec fn tries_next(
    a: GroupAttempt,
    set: UpstreamSet,
    a2: GroupAttempt,
    set2: UpstreamSet,
    eff: Seq<u64>,
    x: int,
    r: Option<usize>,
) -> bool {
    if candidates(a, set).len() > 0 || a.group@ == "default"@ {
        &&& a2 == a
        &&& set.chooses(set2, candidates(a, set), a.group@, eff, x, r)
    } else {
        &&& a2.group@ == "default"@
        &&& a2.failed@.len() == 0
        &&& set.chooses(set2, set.group("default"@), "default"@, eff, x, r)
    }
}

/// The servers after one failed: it is marked, unless scoring is off.
pub open spec fn items_after_failure(
    items: Seq<Upstream>,
    server: usize,
    disabled: bool,
    now: u64,
) -> Seq<Upstream> {
    if disabled {
        items
    } else {
        items.update(server as int, upstream::penalized(items[server as int], now))
    }
}

impl GroupAttempt {
    /// A search in a group, without one server if it is given.
    pub fn new(group: &str, exclude: Option<&str>) -> (r: Self)
        ensures
            r.group@ == group@,
            text::names(r.failed@) == match exclude {
                Some(id) => seq![id@],
                None => Seq::empty(),
            },
    {
        let mut failed: Vec<String> = Vec::new();
        if let Some(id) = exclude {
            failed.push(text::copy_str(id));
            assert(text::names(failed@) =~= seq![id@]);
        } else {
            assert(text::names(failed@) =~= Seq::empty());
        }
        GroupAttempt { group: text::copy_str(group), failed }
    }

    /// The next server to try, by a score for each.
    pub fn next(&mut self, set: &mut UpstreamSet, eff: &[u64]) -> (r: Option<usize>)
        requires
            upstream::scores_match(old(set).items@, eff@),
            old(set).groups_fit(),
        ensures
            exists|x: int| #[trigger]
                tries_next(*old(self), *old(set), *final(self), *final(set), eff@, x, r),
            final(set).items == old(set).items,
            final(set).tolerance == old(set).tolerance,
            r matches Some(i) ==> i < old(set).items@.len() && candidates(
                *final(self),
                *old(set),
            ).contains(i),
            r is None ==> candidates(*old(self), *old(set)).len() == 0 && old(set).group(
                "default"@,
            ).len() == 0 || old(self).group@ == "default"@ && candidates(
                *old(self),
                *old(set),
            ).len() == 0,
    {
        let ghost a = *self;
        let ghost before = *set;
        assert(set.group(self.group@).len() <= upstream::MAX_CANDIDATES);
        assert(set.group("default"@).len() <= upstream::MAX_CANDIDATES);
        let first = set.pick_excluding_many_from_group(
            self.group.as_str(),
            self.failed.as_slice(),
            eff,
        );
        if first.is_some() || text::str_eq(self.group.as_str(), "default") {
            proof {
                let x = choose|x: int| #[trigger]
                    before.chooses(*set, candidates(a, before), a.group@, eff@, x, first);
                assert(tries_next(a, before, *self, *set, eff@, x, first));
            }
            return first;
        }
        proof {
            let x = choose|x: int| #[trigger]
                before.chooses(*set, candidates(a, before), a.group@, eff@, x, first);
            assert(*set == before);
        }
        self.group = text::copy_str("default");
        self.failed = Vec::new();
        let second = set.pick_from_group("default", eff);
        proof {
            let x = choose|x: int| #[trigger]
                before.chooses(*set, before.group("default"@), "default"@, eff@, x, second);
            assert(tries_next(a, before, *self, *set, eff@, x, second));
            upstream::nobody_excluded(before.items@, before.group("default"@), self.failed@);
        }
        second
    }

    /// Notes that a server failed.
    pub fn note_failure(&mut self, set: &mut UpstreamSet, server: usize, disabled: bool, now: u64)
        requires
            server < old(set).items@.len(),
        ensures
            final(self).group == old(self).group,
            text::names(final(self).failed@) == text::names(old(self).failed@).push(
                old(set).items@[server as int].id@,
            ),
            final(set).items@ == items_after_failure(old(set).items@, server, disabled, now),
            final(set).current == old(set).current,
            final(set).tolerance == old(set).tolerance,
            old(set).wf() ==> final(set).wf(),
    {
        let ghost before = self.failed@;
        self.failed.push(text::copy_str(set.items[server].id.as_str()));
        assert(text::names(self.failed@) =~= text::names(before).push(
            set.items@[server as int].id@,
        ));
        if !disabled {
            set.items[server].penalize_at(now);
        }
    }
}

/// A server that failed is not tried again in the same group, so that a search
/// comes to an end: each failure leaves fewer candidates.
pub proof fn failures_use_up_the_group(
    a: GroupAttempt,
    set: UpstreamSet,
    i: usize,
    id: String,
    a2: GroupAttempt,
)
    requires
        set.items@.len() <= usize::MAX,
        candidates(a, set).contains(i),
        id@ == set.items@[i as int].id@,
        a2 == (GroupAttempt { failed: a2.failed, ..a }),
        a2.failed@ == a.failed@.push(id),
    ensures
        candidates(a2, set).len() < candidates(a, set).len(),
        !candidates(a2, set).contains(i),
{
    upstream::lemma_group_in_range(set.items@, a.group@);
    upstream::excluding_leaves_fewer(set.items@, set.group(a.group@), a.failed@, i, id);
    if candidates(a2, set).contains(i) {
        upstream::kept_candidates_are_not_excluded(
            set.items@,
            set.group(a.group@),
            a2.failed@,
            i,
        );
        let names = text::names(a2.failed@);
        assert(names[a.failed@.len() as int] == id@);
    }
}

/// A search for a server for one client and one destination: first the one that
/// was used lately, then those of the client's group.
pub struct ServerDial {
    pub client_ip: IpAddr,
    pub target_ip: IpAddr,
    pub domain: Option<String>,
    /// The server that was used lately, while it has not been tried.
    pub cached: Option<usize>,
    /// Whether the last server was the one that was used lately.
    pub used_cache: bool,
    pub attempt: GroupAttempt,
}

impl ServerDial {
    /// The one that was used lately is a server.
    pub open spec fn wf(self, state: AppState) -> bool {
        self.cached matches Some(i) ==> i < state.upstreams.items@.len()
    }

    /// Starts a search at `now`.
    pub fn start(
        state: &AppState,
        client_ip: IpAddr,
        target_ip: IpAddr,
        domain: Option<&str>,
        now: u64,
    ) -> (r: Self)
        ensures
            r.wf(*state),
            r.client_ip == client_ip,
            r.target_ip == target_ip,
            cache::opt_string(r.domain) == text::opt_text(domain),
            r.cached == state::cached_server(
                *state,
                (client_ip, target_ip, text::opt_text(domain)),
                now,
            ),
            !r.used_cache,
            r.attempt.group@ == state.group_for(client_ip, text::opt_text(domain)),
            r.attempt.failed@.len() == 0,
    {
        let cached = state.get_cached_upstream(client_ip, target_ip, domain, now);
        let group = state.lookup_upstream_group(client_ip, domain);
        let attempt = GroupAttempt::new(group, None);
        assert(text::names(attempt.failed@).len() == attempt.failed@.len());
        ServerDial {
            client_ip,
            target_ip,
            domain: match domain {
                Some(d) => Some(text::copy_str(d)),
                None => None,
            },
            cached,
            used_cache: false,
            attempt,
        }
    }

    /// The next server to try, by a score for each.
    pub fn next(&mut self, state: &mut AppState, eff: &[u64]) -> (r: Option<usize>)
        requires
            old(state).wf(),
            old(self).wf(*old(state)),
            upstream::scores_match(old(state).upstreams.items@, eff@),
            old(state).upstreams.groups_fit(),
        ensures
            final(state).wf(),
            *final(state) == (AppState { upstreams: final(state).upstreams, ..*old(state) }),
            final(state).upstreams.items == old(state).upstreams.items,
            final(self).wf(*final(state)),
            r matches Some(i) ==> i < old(state).upstreams.items@.len(),
            match old(self).cached {
                Some(i) => {
                    &&& r == Some(i)
                    &&& *final(state) == *old(state)
                    &&& *final(self) == (ServerDial { cached: None, used_cache: true, ..*old(self) })
                },
                None => {
                    &&& exists|x: int| #[trigger]
                        tries_next(
                            old(self).attempt,
                            old(state).upstreams,
                            final(self).attempt,
                            final(state).upstreams,
                            eff@,
                            x,
                            r,
                        )
                    &&& *final(self) == (ServerDial {
                        used_cache: false,
                        attempt: final(self).attempt,
                        ..*old(self)
                    })
                },
            },
    {
        match self.cached {
            Some(i) => {
                self.cached = None;
                self.used_cache = true;
                Some(i)
            },
            None => {
                self.used_cache = false;
                let r = self.attempt.next(&mut state.upstreams, eff);
                proof {
                    state::lemma_rules_keep(*old(state), *state);
                }
                r
            },
        }
    }

    /// Notes that a server failed: it is marked unless scoring is off, left out of
    /// the search, and forgotten if it was the one that was used lately.
    pub fn note_failure(&mut self, state: &mut AppState, server: usize, now: u64)
        requires
            old(state).wf(),
            old(self).wf(*old(state)),
            server < old(state).upstreams.items@.len(),
        ensures
            final(state).wf(),
            final(self).wf(*final(state)),
            *final(self) == (ServerDial { attempt: final(self).attempt, ..*old(self) }),
            final(self).attempt.group == old(self).attempt.group,
            text::names(final(self).attempt.failed@) == text::names(
                old(self).attempt.failed@,
            ).push(old(state).upstreams.items@[server as int].id@),
            final(state).upstreams.items@ == items_after_failure(
                old(state).upstreams.items@,
                server,
                old(state).config.disable_upstream_score,
                now,
            ),
            final(state).upstreams.current == old(state).upstreams.current,
            final(state).upstreams.tolerance == old(state).upstreams.tolerance,
            final(state).upstream_cache.entries@ == if old(self).used_cache {
                cache::without_key(
                    old(state).upstream_cache.entries@,
                    (
                        old(self).client_ip,
                        old(self).target_ip,
                        cache::opt_string(old(self).domain),
                    ),
                    old(state).upstream_cache.entries@.len() as int,
                )
            } else {
                old(state).upstream_cache.entries@
            },
            final(state).upstream_cache.ttl_secs == old(state).upstream_cache.ttl_secs,
            final(state).upstream_cache.max == old(state).upstream_cache.max,
            *final(state) == (AppState {
                upstreams: final(state).upstreams,
                upstream_cache: final(state).upstream_cache,
                ..*old(state)
            }),
    {
        if self.used_cache {
            let domain = match &self.domain {
                Some(d) => Some(d.as_str()),
                None => None,
            };
            state.remove_cached_upstream(self.client_ip, self.target_ip, domain);
        }
        let ghost mid = *state;
        let disabled = state.config.disable_upstream_score;
        self.attempt.note_failure(&mut state.upstreams, server, disabled, now);
        proof {
            state::lemma_rules_keep(mid, *state);
        }
    }

    /// Notes that a server answered: it is remembered for the client and the
    /// destination.
    pub fn note_success(&self, state: &mut AppState, server: usize, now: u64)
        requires
            old(state).wf(),
            server < old(state).upstreams.items@.len(),
        ensures
            final(state).wf(),
            exists|key: FlowKey, id: String|
                key.key() == (
                    self.client_ip,
                    self.target_ip,
                    cache::opt_string(self.domain),
                ) && id@ == old(state).upstreams.items@[server as int].id@
                    && final(state).upstream_cache.entries@ == #[trigger] old(state).upstream_cache.entries_with(
                    key,
                    id,
                    now,
                ),
            final(state).upstream_cache.ttl_secs == old(state).upstream_cache.ttl_secs,
            final(state).upstream_cache.max == old(state).upstream_cache.max,
            *final(state) == (AppState {
                upstream_cache: final(state).upstream_cache,
                ..*old(state)
            }),
    {
        let domain = match &self.domain {
            Some(d) => Some(d.as_str()),
            None => None,
        };
        state.cache_upstream(self.client_ip, self.target_ip, domain, server, now);
    }
}

// ---------------------------------------------------------------------------
// What a connection can rely on
// ---------------------------------------------------------------------------

/// A connection goes to its own destination when it goes directly. Through a server
/// it goes to the name that was found, at the port of the destination, or to the
/// destination where none was found.
pub proof fn names_go_with_the_port(dst: SocketAddr, host: Seq<char>)
    ensures
        target_of(dst, true, Some(host)) == TargetView::Direct(dst),
        target_of(dst, true, None) == TargetView::Direct(dst),
        target_of(dst, false, None) == TargetView::Socks5Ip(dst),
        match dst {
            SocketAddr::V4(a) => target_of(dst, false, Some(host)) == (TargetView::Socks5Domain {
                host,
                port: a.port,
            }),
            SocketAddr::V6(a) => target_of(dst, false, Some(host)) == (TargetView::Socks5Domain {
                host,
                port: a.port,
            }),
        },
{
}

/// Where nobody looks for the domain of a connection, knowing it would change
/// nothing: it would go the same way, and through a server of the same group.
pub proof fn unread_domain_changes_nothing(
    s: AppState,
    client: IpAddr,
    dst: IpAddr,
    domain: Option<Seq<char>>,
)
    requires
        s.config.client_domain_routes@.len() == 0
            ==> s.runtime.client_domain_routes.routes@.len() == 0,
        !route_of(s, client, dst).domain_is_of_use(),
    ensures
        s.goes_direct(dst, domain) == s.goes_direct(dst, None),
        !s.goes_direct(dst, domain) ==> s.group_for(client, domain) == s.group_for(client, None),
{
    if let Some(d) = domain {
        let socks5 = text::names(s.config.force_socks5_domains@);
        let direct = text::names(s.config.force_direct_domains@);
        if s.mode() is Smart {
            assert(socks5.len() == 0 && direct.len() == 0);
            assert(!state::some_pattern_matches(socks5, d));
            assert(!state::some_pattern_matches(direct, d));
            if let Some(index) = s.geosite {
                let proxy = text::names(s.config.proxy_geosite_tags@);
                let near = text::names(s.config.direct_geosite_tags@);
                assert(proxy.len() == 0 && near.len() == 0);
                assert(!state::in_some_site(index.sites@, proxy, d));
                assert(!state::in_some_site(index.sites@, near, d));
            }
        }
    }
}

/// When nobody of a group is left, the search goes on among the servers of
/// `default`, all of them, and finds one where there is one. In `default` itself the
/// search ends.
pub proof fn search_goes_on_in_default(
    a: GroupAttempt,
    set: UpstreamSet,
    a2: GroupAttempt,
    set2: UpstreamSet,
    eff: Seq<u64>,
    x: int,
    r: Option<usize>,
)
    requires
        set.items@.len() <= usize::MAX,
        upstream::scores_fit(set.items@, set.group("default"@), eff),
        upstream::scores_fit(set.items@, candidates(a, set), eff),
        candidates(a, set).len() == 0,
        tries_next(a, set, a2, set2, eff, x, r),
    ensures
        a.group@ == "default"@ ==> r is None && a2 == a && set2 == set,
        a.group@ != "default"@ ==> {
            &&& a2.group@ == "default"@
            &&& a2.failed@.len() == 0
            &&& r is Some <==> set.group("default"@).len() > 0
            &&& r matches Some(i) ==> set.group("default"@).contains(i)
        },
{
    upstream::lemma_group_in_range(set.items@, "default"@);
    if a.group@ != "default"@ {
        upstream::choice_is_a_candidate(
            set,
            set2,
            set.group("default"@),
            "default"@,
            eff,
            x,
            r,
        );
    }
}

/// A failure is held against the server that failed and against no other: all its
/// scores fall to 100. Where scoring is off, nobody's do.
pub proof fn failures_are_held_against_the_server(
    items: Seq<Upstream>,
    server: usize,
    now: u64,
    k: int,
)
    requires
        server < items.len(),
        0 <= k < items.len(),
    ensures
        items_after_failure(items, server, true, now) == items,
        items_after_failure(items, server, false, now).len() == items.len(),
        k != server ==> items_after_failure(items, server, false, now)[k] == items[k],
        ({
            let u = items_after_failure(items, server, false, now)[server as int];
            &&& u.tcp_score == 100 && u.quic_uplink_score == 100 && u.quic_downlink_score == 100
            &&& u.tcp_score_initialized
            &&& u.quic_uplink_last_update_secs == now && u.quic_downlink_last_update_secs == now
            &&& u.id == items[server as int].id && u.addr == items[server as int].addr
            &&& u.groups == items[server as int].groups
        }),
{
}

/// Without lists of domains, and without named lists that count, no domain can change
/// where a connection goes; and without routes by domains none can change its servers.
pub proof fn domains_count_only_where_listed(s: AppState, client: IpAddr, dst: IpAddr)
    ensures
        s.config.force_direct_domains@.len() == 0 && s.config.force_socks5_domains@.len() == 0
            && s.geosite is None ==> !route_of(s, client, dst).domain_decides,
        s.config.force_direct_domains@.len() == 0 && s.config.force_socks5_domains@.len() == 0
            && s.config.proxy_geosite_tags@.len() == 0 && s.config.direct_geosite_tags@.len() == 0
            ==> !route_of(s, client, dst).domain_decides,
        s.config.client_domain_routes@.len() == 0 ==> !route_of(
            s,
            client,
            dst,
        ).domain_picks_group,
        s.runtime.client_domain_routes.routes@.len() == 0 ==> !route_of(
            s,
            client,
            dst,
        ).domain_picks_group,
        route_of(s, client, dst).direct_by_ip == s.goes_direct(dst, None),
        route_of(s, client, dst).domain_decides || route_of(s, client, dst).domain_picks_group
            || !s.goes_direct(dst, None) ==> !route_of(s, client, dst).surely_direct(),
        s.goes_direct(dst, None) && !route_of(s, client, dst).domain_decides && !route_of(
            s,
            client,
            dst,
        ).domain_picks_group ==> route_of(s, client, dst).surely_direct(),
{
}

} // verus!
