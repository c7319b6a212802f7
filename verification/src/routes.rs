//! Which group of servers a client uses, by its address and by the domain.

use crate::cli::DomainRoute;
use crate::net::{IpAddr, IpNet};
use crate::sorting;
use crate::text;
use crate::util;
use crate::util::{canonical_domain, domain_matches_suffix};
use vstd::prelude::*;
use vstd::utf8::*;

verus! {

// ---------------------------------------------------------------------------
// Domains
// ---------------------------------------------------------------------------

/// A domain, in canonical form, and the group that it leads to.
pub struct DomainGroup {
    pub domain: String,
    pub group: String,
}

/// The groups that domains lead to. A domain leads to the group that is set for
/// it, or else to that of the first suffix that it matches.
pub struct DomainRouteTable {
    pub exact: Vec<DomainGroup>,
    pub suffixes: Vec<DomainGroup>,
}

/// The view of a list of domains and groups.
pub open spec fn pairs(v: Seq<DomainGroup>) -> Seq<(Seq<char>, Seq<char>)> {
    v.map_values(|e: DomainGroup| (e.domain@, e.group@))
}

/// The group of the last of the first `n` entries for a domain.
pub open spec fn exact_group(
    entries: Seq<(Seq<char>, Seq<char>)>,
    domain: Seq<char>,
    n: int,
) -> Option<Seq<char>>
    decreases n,
{
    if n <= 0 {
        None
    } else if entries[n - 1].0 == domain {
        Some(entries[n - 1].1)
    } else {
        exact_group(entries, domain, n - 1)
    }
}

/// The first entry from `from` on whose suffix a domain matches.
pub open spec fn suffix_at(
    entries: Seq<(Seq<char>, Seq<char>)>,
    domain: Seq<char>,
    from: int,
) -> Option<int>
    decreases entries.len() - from,
{
    if from < 0 || from >= entries.len() {
        None
    } else if util::matches_suffix(domain, entries[from].0) {
        Some(from)
    } else {
        suffix_at(entries, domain, from + 1)
    }
}

/// The group that a domain leads to.
pub open spec fn domain_group(
    exact: Seq<(Seq<char>, Seq<char>)>,
    suffixes: Seq<(Seq<char>, Seq<char>)>,
    domain: Seq<char>,
) -> Option<Seq<char>> {
    match exact_group(exact, util::canonical(domain), exact.len() as int) {
        Some(group) => Some(group),
        None => match suffix_at(suffixes, domain, 0) {
            Some(i) => Some(suffixes[i].1),
            None => None,
        },
    }
}

/// A pattern for a domain and all below it starts with a dot.
pub open spec fn is_suffix_pattern(pattern: Seq<char>) -> bool {
    pattern.len() > 0 && pattern[0] == '.'
}

/// What a pattern stands for, in canonical form.
pub open spec fn pattern_domain(pattern: Seq<char>) -> Seq<char> {
    util::canonical(pattern)
}

/// How many bytes a text takes.
pub open spec fn byte_len(s: Seq<char>) -> int {
    encode_utf8(s).len() as int
}

/// Suffixes are ordered by their length.
pub open spec fn suffix_key() -> spec_fn((Seq<char>, Seq<char>)) -> int {
    |e: (Seq<char>, Seq<char>)| byte_len(e.0)
}

/// The entries of the first `n` routes that are for suffixes, or that are not.
pub open spec fn entries_of(domains: Seq<DomainRoute>, suffix: bool, n: int) -> Seq<
    (Seq<char>, Seq<char>),
>
    decreases n,
{
    if n <= 0 {
        Seq::empty()
    } else {
        let before = entries_of(domains, suffix, n - 1);
        let d = domains[n - 1];
        if is_suffix_pattern(d.domain@) == suffix {
            before.push((pattern_domain(d.domain@), d.group@))
        } else {
            before
        }
    }
}

/// The table of a list of routes: the suffixes with the longest first.
pub open spec fn is_table_of(t: DomainRouteTable, domains: Seq<DomainRoute>) -> bool {
    &&& pairs(t.exact@) == entries_of(domains, false, domains.len() as int)
    &&& pairs(t.suffixes@) == sorting::falling(
        entries_of(domains, true, domains.len() as int),
        suffix_key(),
    )
}

impl DomainRouteTable {
    /// The group that a domain leads to.
    pub open spec fn group(self, domain: Seq<char>) -> Option<Seq<char>> {
        domain_group(pairs(self.exact@), pairs(self.suffixes@), domain)
    }

    /// The table of a list of routes. A pattern with a dot in front is for the
    /// domain and all below it, one without is for the domain alone. Fails at the
    /// first pattern that stands for no domain.
    pub fn build(domains: &[DomainRoute]) -> (r: Result<DomainRouteTable, usize>)
        ensures
            match r {
                Ok(t) => {
                    &&& is_table_of(t, domains@)
                    &&& forall|i: int|
                        0 <= i < domains@.len() ==> pattern_domain(
                            (#[trigger] domains@[i]).domain@,
                        ).len() > 0
                },
                Err(i) => {
                    &&& i < domains@.len()
                    &&& pattern_domain(domains@[i as int].domain@).len() == 0
                    &&& forall|k: int|
                        0 <= k < i ==> pattern_domain((#[trigger] domains@[k]).domain@).len() > 0
                },
            },
    {
        let mut exact: Vec<DomainGroup> = Vec::new();
        let mut suffixes: Vec<DomainGroup> = Vec::new();
        let mut i: usize = 0;
        assert(pairs(exact@) =~= entries_of(domains@, false, 0));
        assert(pairs(suffixes@) =~= sorting::falling(entries_of(domains@, true, 0), suffix_key()));
        while i < domains.len()
            invariant
                i <= domains@.len(),
                pairs(exact@) == entries_of(domains@, false, i as int),
                pairs(suffixes@) == sorting::falling(
                    entries_of(domains@, true, i as int),
                    suffix_key(),
                ),
                forall|k: int|
                    0 <= k < i ==> pattern_domain((#[trigger] domains@[k]).domain@).len() > 0,
            decreases domains@.len() - i,
        {
            let pattern = text::chars_of(domains[i].domain.as_str());
            let domain = util::canonical_chars(pattern.as_slice());
            if domain.len() == 0 {
                return Err(i);
            }
            let entry = DomainGroup {
                domain: text::string_of(domain.as_slice()),
                group: text::copy_str(domains[i].group.as_str()),
            };
            let ghost pair = (entry.domain@, entry.group@);
            if pattern.len() > 0 && pattern[0] == '.' {
                let ghost before = entries_of(domains@, true, i as int);
                assert(before.push(pair).drop_last() =~= before);
                assert(entries_of(domains@, false, i + 1) =~= entries_of(domains@, false, i as int));
                insert_suffix(&mut suffixes, entry);
            } else {
                assert(entries_of(domains@, true, i + 1) =~= entries_of(domains@, true, i as int));
                exact.push(entry);
                assert(pairs(exact@) =~= entries_of(domains@, false, i + 1));
            }
            i += 1;
        }
        Ok(DomainRouteTable { exact, suffixes })
    }

    /// The group that a domain leads to.
    pub fn lookup(&self, domain: &str) -> (r: Option<&str>)
        ensures
            text::opt_text(r) == self.group(domain@),
    {
        let name = canonical_domain(domain);
        let ghost exact = pairs(self.exact@);
        let ghost suffixes = pairs(self.suffixes@);
        let mut n: usize = self.exact.len();
        while n > 0
            invariant
                n <= self.exact@.len(),
                exact == pairs(self.exact@),
                name@ == util::canonical(domain@),
                exact_group(exact, name@, exact.len() as int) == exact_group(
                    exact,
                    name@,
                    n as int,
                ),
            decreases n,
        {
            if text::str_eq(self.exact[n - 1].domain.as_str(), name.as_str()) {
                return Some(self.exact[n - 1].group.as_str());
            }
            n -= 1;
        }
        let mut i: usize = 0;
        while i < self.suffixes.len()
            invariant
                i <= self.suffixes@.len(),
                exact == pairs(self.exact@),
                suffixes == pairs(self.suffixes@),
                exact_group(exact, util::canonical(domain@), exact.len() as int) is None,
                suffix_at(suffixes, domain@, 0) == suffix_at(suffixes, domain@, i as int),
            decreases self.suffixes@.len() - i,
        {
            if domain_matches_suffix(domain, self.suffixes[i].domain.as_str()) {
                return Some(self.suffixes[i].group.as_str());
            }
            i += 1;
        }
        None
    }
}

fn insert_suffix(suffixes: &mut Vec<DomainGroup>, entry: DomainGroup)
    ensures
        pairs(final(suffixes)@) == sorting::insert_falling(
            pairs(old(suffixes)@),
            suffix_key(),
            (entry.domain@, entry.group@),
        ),
{
    let ghost key = suffix_key();
    let ghost start = pairs(suffixes@);
    let ghost k = byte_len(entry.domain@);
    let len = entry.domain.as_str().as_bytes().len();
    let mut p: usize = 0;
    while p < suffixes.len() && suffixes[p].domain.as_str().as_bytes().len() >= len
        invariant
            p <= suffixes@.len(),
            start == pairs(suffixes@),
            key == suffix_key(),
            k == byte_len(entry.domain@),
            len == k,
            sorting::first_below(start, key, k, 0) == sorting::first_below(start, key, k, p as int),
        decreases suffixes@.len() - p,
    {
        p += 1;
    }
    let ghost pair = (entry.domain@, entry.group@);
    suffixes.insert(p, entry);
    assert(pairs(suffixes@) =~= start.insert(p as int, pair));
}

/// The spelling of a domain does not change the group that it leads to.
pub proof fn domain_groups_ignore_spelling(t: DomainRouteTable, a: Seq<char>, b: Seq<char>)
    requires
        util::canonical(a) == util::canonical(b),
    ensures
        t.group(a) == t.group(b),
{
    lemma_suffix_spelling(pairs(t.suffixes@), a, b, 0);
}

proof fn lemma_suffix_spelling(
    entries: Seq<(Seq<char>, Seq<char>)>,
    a: Seq<char>,
    b: Seq<char>,
    from: int,
)
    requires
        util::canonical(a) == util::canonical(b),
    ensures
        suffix_at(entries, a, from) == suffix_at(entries, b, from),
    decreases entries.len() - from,
{
    if 0 <= from < entries.len() {
        lemma_suffix_spelling(entries, a, b, from + 1);
    }
}

proof fn lemma_suffix_at(entries: Seq<(Seq<char>, Seq<char>)>, domain: Seq<char>, from: int)
    requires
        0 <= from <= entries.len(),
    ensures
        match suffix_at(entries, domain, from) {
            Some(p) => {
                &&& from <= p < entries.len()
                &&& util::matches_suffix(domain, entries[p].0)
                &&& forall|i: int|
                    from <= i < p ==> !util::matches_suffix(domain, (#[trigger] entries[i]).0)
            },
            None => forall|i: int|
                from <= i < entries.len() ==> !util::matches_suffix(
                    domain,
                    (#[trigger] entries[i]).0,
                ),
        },
    decreases entries.len() - from,
{
    if from < entries.len() && !util::matches_suffix(domain, entries[from].0) {
        lemma_suffix_at(entries, domain, from + 1);
    }
}

/// Where nothing is set for a domain itself, it leads to the group of the longest
/// suffix that it matches, that which was set first if there are several, and to no
/// group when it matches none.
pub proof fn longest_suffix_wins(t: DomainRouteTable, domains: Seq<DomainRoute>, domain: Seq<char>)
    requires
        is_table_of(t, domains),
        exact_group(
            pairs(t.exact@),
            util::canonical(domain),
            pairs(t.exact@).len() as int,
        ) is None,
    ensures
        ({
            let entries = entries_of(domains, true, domains.len() as int);
            match t.group(domain) {
                Some(group) => exists|i: int| {
                    &&& 0 <= i < entries.len()
                    &&& (#[trigger] entries[i]).1 == group
                    &&& util::matches_suffix(domain, entries[i].0)
                    &&& forall|j: int|
                        0 <= j < entries.len() && util::matches_suffix(
                            domain,
                            (#[trigger] entries[j]).0,
                        ) ==> byte_len(entries[j].0) <= byte_len(entries[i].0) && (j < i ==> byte_len(
                            entries[j].0,
                        ) < byte_len(entries[i].0))
                },
                None => forall|j: int|
                    0 <= j < entries.len() ==> !util::matches_suffix(
                        domain,
                        (#[trigger] entries[j]).0,
                    ),
            }
        }),
{
    let entries = entries_of(domains, true, domains.len() as int);
    let sorted = pairs(t.suffixes@);
    let good = |e: (Seq<char>, Seq<char>)| util::matches_suffix(domain, e.0);
    sorting::sorting_keeps_the_elements(entries, suffix_key());
    lemma_suffix_at(sorted, domain, 0);
    match suffix_at(sorted, domain, 0) {
        Some(p) => {
            let i = sorting::lemma_first_of_sorted(entries, suffix_key(), good, p);
            assert forall|j: int|
                0 <= j < entries.len() && util::matches_suffix(
                    domain,
                    (#[trigger] entries[j]).0,
                ) implies byte_len(entries[j].0) <= byte_len(entries[i].0) && (j < i ==> byte_len(
                entries[j].0,
            ) < byte_len(entries[i].0)) by {
                assert(good(entries[j]));
                assert(suffix_key()(entries[j]) == byte_len(entries[j].0));
            }
            assert(entries[i].1 == t.group(domain)->0);
        },
        None => {
            assert forall|j: int| 0 <= j < entries.len() implies !util::matches_suffix(
                domain,
                (#[trigger] entries[j]).0,
            ) by {
                assert(entries.contains(entries[j]));
                assert(sorted.contains(entries[j]));
                let q = choose|q: int| 0 <= q < sorted.len() && sorted[q] == entries[j];
            }
        },
    }
}

/// The pattern `k` of a list decides for a domain. A pattern for the domain alone
/// comes before those for suffixes, and of several the last counts. Of suffixes the
/// longest counts, and of equal ones the first.
pub open spec fn decides(domains: Seq<DomainRoute>, k: int, domain: Seq<char>) -> bool {
    if is_suffix_pattern(domains[k].domain@) {
        &&& util::matches_suffix(domain, pattern_domain(domains[k].domain@))
        &&& forall|m: int|
            0 <= m < domains.len() && !is_suffix_pattern((#[trigger] domains[m]).domain@)
                ==> pattern_domain(domains[m].domain@) != util::canonical(domain)
        &&& forall|m: int|
            0 <= m < domains.len() && m != k && is_suffix_pattern((#[trigger] domains[m]).domain@)
                && util::matches_suffix(domain, pattern_domain(domains[m].domain@)) ==> byte_len(
                pattern_domain(domains[m].domain@),
            ) < byte_len(pattern_domain(domains[k].domain@)) || (k < m && byte_len(
                pattern_domain(domains[m].domain@),
            ) == byte_len(pattern_domain(domains[k].domain@)))
    } else {
        &&& pattern_domain(domains[k].domain@) == util::canonical(domain)
        &&& forall|m: int|
            k < m < domains.len() && !is_suffix_pattern((#[trigger] domains[m]).domain@)
                ==> pattern_domain(domains[m].domain@) != util::canonical(domain)
    }
}

/// Where the entry of the pattern `k` stands among the entries of its kind.
spec fn place_of(domains: Seq<DomainRoute>, suffix: bool, k: int) -> int {
    entries_of(domains, suffix, k).len() as int
}

proof fn lemma_entry(domains: Seq<DomainRoute>, suffix: bool, k: int, n: int)
    requires
        0 <= k < n <= domains.len(),
        is_suffix_pattern(domains[k].domain@) == suffix,
    ensures
        place_of(domains, suffix, k) < entries_of(domains, suffix, n).len(),
        entries_of(domains, suffix, n)[place_of(domains, suffix, k)] == (
            pattern_domain(domains[k].domain@),
            domains[k].group@,
        ),
    decreases n,
{
    if k < n - 1 {
        lemma_entry(domains, suffix, k, n - 1);
    }
}

proof fn lemma_entry_of_whom(domains: Seq<DomainRoute>, suffix: bool, i: int, n: int) -> (k: int)
    requires
        0 <= n <= domains.len(),
        0 <= i < entries_of(domains, suffix, n).len(),
    ensures
        0 <= k < n,
        is_suffix_pattern(domains[k].domain@) == suffix,
        place_of(domains, suffix, k) == i,
    decreases n,
{
    if i < place_of(domains, suffix, n - 1) {
        lemma_entry_of_whom(domains, suffix, i, n - 1)
    } else {
        n - 1
    }
}

proof fn lemma_places_rise(domains: Seq<DomainRoute>, suffix: bool, k: int, m: int)
    requires
        0 <= k < m <= domains.len(),
        is_suffix_pattern(domains[k].domain@) == suffix,
    ensures
        place_of(domains, suffix, k) < place_of(domains, suffix, m),
{
    lemma_entry(domains, suffix, k, m);
}

proof fn lemma_exact_group(entries: Seq<(Seq<char>, Seq<char>)>, domain: Seq<char>, n: int)
    requires
        0 <= n <= entries.len(),
    ensures
        match exact_group(entries, domain, n) {
            Some(group) => exists|i: int| {
                &&& 0 <= i < n
                &&& (#[trigger] entries[i]).0 == domain
                &&& entries[i].1 == group
                &&& forall|j: int| i < j < n ==> (#[trigger] entries[j]).0 != domain
            },
            None => forall|j: int| 0 <= j < n ==> (#[trigger] entries[j]).0 != domain,
        },
    decreases n,
{
    if n > 0 {
        if entries[n - 1].0 == domain {
            assert(entries[n - 1].1 == exact_group(entries, domain, n)->0);
        } else {
            lemma_exact_group(entries, domain, n - 1);
            if let Some(group) = exact_group(entries, domain, n - 1) {
                let i = choose|i: int| {
                    &&& 0 <= i < n - 1
                    &&& (#[trigger] entries[i]).0 == domain
                    &&& entries[i].1 == group
                    &&& forall|j: int| i < j < n - 1 ==> (#[trigger] entries[j]).0 != domain
                };
                assert(entries[i].0 == domain);
            }
        }
    }
}

proof fn lemma_no_exact_group(domains: Seq<DomainRoute>, name: Seq<char>)
    requires
        forall|m: int|
            0 <= m < domains.len() && !is_suffix_pattern((#[trigger] domains[m]).domain@)
                ==> pattern_domain(domains[m].domain@) != name,
    ensures
        ({
            let entries = entries_of(domains, false, domains.len() as int);
            exact_group(entries, name, entries.len() as int) is None
        }),
{
    let n = domains.len() as int;
    let entries = entries_of(domains, false, n);
    lemma_exact_group(entries, name, entries.len() as int);
    if exact_group(entries, name, entries.len() as int) is Some {
        let i = choose|i: int| 0 <= i < entries.len() && (#[trigger] entries[i]).0 == name;
        let m = lemma_entry_of_whom(domains, false, i, n);
        lemma_entry(domains, false, m, n);
        assert(domains[m].group@ == entries[i].1);
    }
}

/// In the table of a list, a domain leads to the group of the pattern that decides
/// for it.
pub proof fn deciding_pattern_gives_the_group(
    t: DomainRouteTable,
    domains: Seq<DomainRoute>,
    k: int,
    domain: Seq<char>,
)
    requires
        is_table_of(t, domains),
        0 <= k < domains.len(),
        decides(domains, k, domain),
    ensures
        t.group(domain) == Some(domains[k].group@),
{
    let n = domains.len() as int;
    let name = util::canonical(domain);
    if is_suffix_pattern(domains[k].domain@) {
        let entries = entries_of(domains, true, n);
        let at = place_of(domains, true, k);
        lemma_no_exact_group(domains, name);
        lemma_entry(domains, true, k, n);
        longest_suffix_wins(t, domains, domain);
        let group = t.group(domain)->0;
        let i = choose|i: int| {
            &&& 0 <= i < entries.len()
            &&& (#[trigger] entries[i]).1 == group
            &&& util::matches_suffix(domain, entries[i].0)
            &&& forall|j: int|
                0 <= j < entries.len() && util::matches_suffix(domain, (#[trigger] entries[j]).0)
                    ==> byte_len(entries[j].0) <= byte_len(entries[i].0) && (j < i ==> byte_len(
                    entries[j].0,
                ) < byte_len(entries[i].0))
        };
        assert(util::matches_suffix(domain, entries[at].0));
        let m = lemma_entry_of_whom(domains, true, i, n);
        lemma_entry(domains, true, m, n);
        assert(util::matches_suffix(domain, pattern_domain(domains[m].domain@)));
        if m != k {
            lemma_places_rise(domains, true, k, m);
        }
    } else {
        let entries = entries_of(domains, false, n);
        let at = place_of(domains, false, k);
        lemma_entry(domains, false, k, n);
        lemma_exact_group(entries, name, entries.len() as int);
        let group = exact_group(entries, name, entries.len() as int)->0;
        assert(entries[at].0 == name);
        let i = choose|i: int| {
            &&& 0 <= i < entries.len()
            &&& (#[trigger] entries[i]).0 == name
            &&& entries[i].1 == group
            &&& forall|j: int| i < j < entries.len() ==> (#[trigger] entries[j]).0 != name
        };
        let m = lemma_entry_of_whom(domains, false, i, n);
        lemma_entry(domains, false, m, n);
        if m < k {
            lemma_places_rise(domains, false, m, k);
        }
    }
}

// ---------------------------------------------------------------------------
// Networks
// ---------------------------------------------------------------------------

/// A network and what it leads to.
pub struct CidrRoute<T> {
    pub net: IpNet,
    pub value: T,
}

/// What networks of clients lead to. After [`ClientCidrRoutes::finalize`] the
/// smallest network that has a client decides.
pub struct ClientCidrRoutes<T> {
    pub routes: Vec<CidrRoute<T>>,
}

/// The groups that clients lead to.
pub type ClientIpRoutes = ClientCidrRoutes<String>;

/// The tables of domains that clients lead to.
pub type ClientDomainRoutes = ClientCidrRoutes<DomainRouteTable>;

/// A network has an address, and is one.
pub open spec fn net_has(net: IpNet, ip: IpAddr) -> bool {
    net.wf() && net.has(ip)
}

/// The first route from `from` on whose network has an address.
pub open spec fn route_at<T>(routes: Seq<CidrRoute<T>>, ip: IpAddr, from: int) -> Option<int>
    decreases routes.len() - from,
{
    if from < 0 || from >= routes.len() {
        None
    } else if net_has(routes[from].net, ip) {
        Some(from)
    } else {
        route_at(routes, ip, from + 1)
    }
}

/// What the first route for an address leads to.
pub open spec fn route_value<T>(routes: Seq<CidrRoute<T>>, ip: IpAddr) -> Option<T> {
    match route_at(routes, ip, 0) {
        Some(i) => Some(routes[i].value),
        None => None,
    }
}

/// Routes are ordered by the length of their prefixes.
pub open spec fn prefix_key<T>() -> spec_fn(CidrRoute<T>) -> int {
    |e: CidrRoute<T>| e.net.prefix_len as int
}

/// The view of an optional reference.
pub open spec fn opt_value<T>(r: Option<&T>) -> Option<T> {
    match r {
        Some(v) => Some(*v),
        None => None,
    }
}

impl<T> ClientCidrRoutes<T> {
    /// No routes.
    pub fn new() -> (r: Self)
        ensures
            r.routes@.len() == 0,
    {
        ClientCidrRoutes { routes: Vec::new() }
    }

    /// Adds a route behind those that are there.
    pub fn insert(&mut self, net: IpNet, value: T)
        ensures
            final(self).routes@ == old(self).routes@.push(CidrRoute { net, value }),
    {
        self.routes.push(CidrRoute { net, value });
    }

    /// Puts the routes with the longest prefixes first. Routes whose prefixes are
    /// equally long keep their order.
    pub fn finalize(&mut self)
        ensures
            final(self).routes@ == sorting::falling(old(self).routes@, prefix_key()),
    {
        let ghost start = self.routes@;
        let ghost key = prefix_key::<T>();
        let mut sorted: Vec<CidrRoute<T>> = Vec::new();
        let ghost mut done: int = 0;
        assert(sorted@ =~= sorting::falling(start.take(0), key));
        assert(start.skip(0) =~= start);
        while self.routes.len() > 0
            invariant
                0 <= done <= start.len(),
                key == prefix_key::<T>(),
                self.routes@ == start.skip(done),
                sorted@ == sorting::falling(start.take(done), key),
            decreases self.routes@.len(),
        {
            let e = self.routes.remove(0);
            assert(self.routes@ =~= start.skip(done + 1));
            assert(e == start[done]);
            let ghost k = e.net.prefix_len as int;
            let ghost before = sorted@;
            let mut p: usize = 0;
            while p < sorted.len() && sorted[p].net.prefix_len >= e.net.prefix_len
                invariant
                    p <= sorted@.len(),
                    sorted@ == before,
                    key == prefix_key::<T>(),
                    k == e.net.prefix_len,
                    sorting::first_below(before, key, k, 0) == sorting::first_below(
                        before,
                        key,
                        k,
                        p as int,
                    ),
                decreases sorted@.len() - p,
            {
                p += 1;
            }
            sorted.insert(p, e);
            assert(start.take(done + 1).drop_last() =~= start.take(done));
            assert(start.take(done + 1).last() == e);
            proof {
                done = done + 1;
            }
        }
        assert(start.take(done) =~= start);
        self.routes = sorted;
    }

    /// What the first route for an address leads to.
    pub fn lookup(&self, ip: IpAddr) -> (r: Option<&T>)
        ensures
            opt_value(r) == route_value(self.routes@, ip),
    {
        let mut i: usize = 0;
        while i < self.routes.len()
            invariant
                i <= self.routes@.len(),
                route_at(self.routes@, ip, 0) == route_at(self.routes@, ip, i as int),
            decreases self.routes@.len() - i,
        {
            if self.routes[i].net.contains(ip) {
                return Some(&self.routes[i].value);
            }
            i += 1;
        }
        None
    }
}

impl<T> Default for ClientCidrRoutes<T> {
    fn default() -> (r: Self)
        ensures
            r.routes@.len() == 0,
    {
        ClientCidrRoutes { routes: Vec::new() }
    }
}

proof fn lemma_route_at<T>(routes: Seq<CidrRoute<T>>, ip: IpAddr, from: int)
    requires
        0 <= from <= routes.len(),
    ensures
        match route_at(routes, ip, from) {
            Some(p) => {
                &&& from <= p < routes.len()
                &&& net_has(routes[p].net, ip)
                &&& forall|i: int| from <= i < p ==> !net_has((#[trigger] routes[i]).net, ip)
            },
            None => forall|i: int|
                from <= i < routes.len() ==> !net_has((#[trigger] routes[i]).net, ip),
        },
    decreases routes.len() - from,
{
    if from < routes.len() && !net_has(routes[from].net, ip) {
        lemma_route_at(routes, ip, from + 1);
    }
}

/// Among sorted routes, the smallest network that has an address decides, and of
/// equally small ones that which was entered first; none does when no network has
/// it.
pub proof fn longest_prefix_wins<T>(routes: Seq<CidrRoute<T>>, ip: IpAddr)
    ensures
        match route_value(sorting::falling(routes, prefix_key()), ip) {
            Some(value) => exists|i: int| {
                &&& 0 <= i < routes.len()
                &&& (#[trigger] routes[i]).value == value
                &&& net_has(routes[i].net, ip)
                &&& forall|j: int|
                    0 <= j < routes.len() && net_has((#[trigger] routes[j]).net, ip)
                        ==> routes[j].net.prefix_len <= routes[i].net.prefix_len && (j < i
                        ==> routes[j].net.prefix_len < routes[i].net.prefix_len)
            },
            None => forall|j: int| 0 <= j < routes.len() ==> !net_has((#[trigger] routes[j]).net, ip),
        },
{
    let sorted = sorting::falling(routes, prefix_key());
    let good = |e: CidrRoute<T>| net_has(e.net, ip);
    sorting::sorting_keeps_the_elements(routes, prefix_key());
    lemma_route_at(sorted, ip, 0);
    match route_at(sorted, ip, 0) {
        Some(p) => {
            let i = sorting::lemma_first_of_sorted(routes, prefix_key(), good, p);
            assert forall|j: int| 0 <= j < routes.len() && net_has(
                (#[trigger] routes[j]).net,
                ip,
            ) implies routes[j].net.prefix_len <= routes[i].net.prefix_len && (j < i
                ==> routes[j].net.prefix_len < routes[i].net.prefix_len) by {
                assert(good(routes[j]));
                assert(prefix_key::<T>()(routes[j]) == routes[j].net.prefix_len as int);
            }
            assert(routes[i].value == sorted[p].value);
        },
        None => {
            assert forall|j: int| 0 <= j < routes.len() implies !net_has(
                (#[trigger] routes[j]).net,
                ip,
            ) by {
                assert(routes.contains(routes[j]));
                assert(sorted.contains(routes[j]));
                let q = choose|q: int| 0 <= q < sorted.len() && sorted[q] == routes[j];
            }
        },
    }
}

} // verus!
