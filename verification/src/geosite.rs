//! Named lists of domains.

use crate::text;
use crate::util;
use geosite_rs::GeoSiteList;
use std::collections::HashMap;
use vstd::prelude::*;

verus! {

/// One rule of a list: how it matches, as a number, and what.
pub struct GeoRule {
    pub kind: i32,
    pub value: String,
}

/// A list of domains with its name.
pub struct GeoSite {
    pub tag: String,
    pub rules: Vec<GeoRule>,
}

/// How a rule matches.
#[derive(Debug, Clone, Copy, PartialEq, Eq, Structural)]
pub enum GeositeDomainType {
    /// The value occurs in the domain.
    Plain,
    /// The value is an expression. Such rules match nothing here.
    Regex,
    /// The domain is the value or below it.
    Domain,
    /// The domain is the value.
    Full,
    Unknown(i32),
}

pub open spec fn domain_type(kind: i32) -> GeositeDomainType {
    if kind == 0 {
        GeositeDomainType::Plain
    } else if kind == 1 {
        GeositeDomainType::Regex
    } else if kind == 2 {
        GeositeDomainType::Domain
    } else if kind == 3 {
        GeositeDomainType::Full
    } else {
        GeositeDomainType::Unknown(kind)
    }
}

impl From<i32> for GeositeDomainType {
    fn from(value: i32) -> (r: Self) {
        match value {
            0 => GeositeDomainType::Plain,
            1 => GeositeDomainType::Regex,
            2 => GeositeDomainType::Domain,
            3 => GeositeDomainType::Full,
            other => GeositeDomainType::Unknown(other),
        }
    }
}

impl vstd::std_specs::convert::FromSpecImpl<i32> for GeositeDomainType {
    open spec fn obeys_from_spec() -> bool {
        true
    }

    open spec fn from_spec(v: i32) -> Self {
        domain_type(v)
    }
}

/// A domain matches a rule. The spelling of both does not count.
pub open spec fn rule_matches(kind: i32, value: Seq<char>, domain: Seq<char>) -> bool {
    let d = util::canonical(domain);
    let v = util::canonical(value);
    match domain_type(kind) {
        GeositeDomainType::Plain => v.len() > 0 && text::contains_seq(d, v),
        GeositeDomainType::Regex => false,
        GeositeDomainType::Domain => util::is_at_or_below(d, v),
        GeositeDomainType::Full => v.len() > 0 && d == v,
        GeositeDomainType::Unknown(_) => false,
    }
}

/// Whether a domain matches a rule.
pub fn geosite_domain_match(rule: &GeoRule, domain: &str) -> (r: bool)
    ensures
        r == rule_matches(rule.kind, rule.value@, domain@),
{
    let domain = text::chars_of(domain);
    let value = text::chars_of(rule.value.as_str());
    let d = util::canonical_chars(domain.as_slice());
    let v = util::canonical_chars(value.as_slice());
    match GeositeDomainType::from(rule.kind) {
        GeositeDomainType::Plain => v.len() > 0 && text::chars_contain(d.as_slice(), v.as_slice()),
        GeositeDomainType::Regex => false,
        GeositeDomainType::Domain => util::chars_at_or_below(d.as_slice(), v.as_slice()),
        GeositeDomainType::Full => v.len() > 0 && text::chars_eq(d.as_slice(), v.as_slice()),
        GeositeDomainType::Unknown(_) => false,
    }
}

/// A domain matches one of a list of rules.
pub open spec fn some_rule_matches(rules: Seq<GeoRule>, domain: Seq<char>) -> bool {
    exists|i: int|
        0 <= i < rules.len() && rule_matches(
            (#[trigger] rules[i]).kind,
            rules[i].value@,
            domain,
        )
}

/// The lists that are of use.
pub struct GeositeIndex {
    pub sites: Vec<GeoSite>,
}

/// The rules of the last of the first `n` lists with a name, in lower case.
pub open spec fn rules_named(sites: Seq<GeoSite>, tag: Seq<char>, n: int) -> Option<Seq<GeoRule>>
    decreases n,
{
    if n <= 0 {
        None
    } else if text::lowercase(sites[n - 1].tag@) == tag {
        Some(sites[n - 1].rules@)
    } else {
        rules_named(sites, tag, n - 1)
    }
}

/// A domain is in the list of a name.
pub open spec fn in_site(sites: Seq<GeoSite>, tag: Seq<char>, domain: Seq<char>) -> bool {
    match rules_named(sites, text::lowercase(tag), sites.len() as int) {
        Some(rules) => some_rule_matches(rules, domain),
        None => false,
    }
}

/// A list is of use: one of the tags is its name.
pub open spec fn is_needed(tags: Seq<Seq<char>>, name: Seq<char>) -> bool {
    exists|i: int|
        0 <= i < tags.len() && text::lowercase(#[trigger] tags[i]) == text::lowercase(name)
}

/// The lists among the first `n` that are of use.
pub open spec fn needed_sites(sites: Seq<GeoSite>, tags: Seq<Seq<char>>, n: int) -> Seq<GeoSite>
    decreases n,
{
    if n <= 0 {
        Seq::empty()
    } else if is_needed(tags, sites[n - 1].tag@) {
        needed_sites(sites, tags, n - 1).push(sites[n - 1])
    } else {
        needed_sites(sites, tags, n - 1)
    }
}

fn tag_is_needed(tags: &[String], name: &str) -> (r: bool)
    ensures
        r == is_needed(text::names(tags@), name@),
{
    let lower = text::lowercase_str(name);
    let mut i: usize = 0;
    while i < tags.len()
        invariant
            i <= tags@.len(),
            lower@ == text::lowercase(name@),
            forall|k: int|
                0 <= k < i ==> text::lowercase((#[trigger] tags@[k])@) != text::lowercase(name@),
        decreases tags@.len() - i,
    {
        let tag = text::lowercase_str(tags[i].as_str());
        if text::str_eq(tag.as_str(), lower.as_str()) {
            assert(text::names(tags@)[i as int] == tags@[i as int]@);
            return true;
        }
        i += 1;
    }
    proof {
        let names = text::names(tags@);
        if is_needed(names, name@) {
            let k = choose|k: int|
                0 <= k < names.len() && text::lowercase(#[trigger] names[k]) == text::lowercase(
                    name@,
                );
            assert(tags@[k]@ == names[k]);
        }
    }
    false
}

impl GeositeIndex {
    /// Keeps the lists that one of the tags names, whatever the case of letters.
    pub fn build(sites: Vec<GeoSite>, proxy_tags: &[String], direct_tags: &[String]) -> (r: Self)
        ensures
            r.sites@ == needed_sites(
                sites@,
                text::names(proxy_tags@) + text::names(direct_tags@),
                sites@.len() as int,
            ),
    {
        let ghost tags = text::names(proxy_tags@) + text::names(direct_tags@);
        let ghost start = sites@;
        let mut rest = sites;
        let mut kept: Vec<GeoSite> = Vec::new();
        let ghost mut n: int = 0;
        assert(start.skip(0) =~= start);
        while rest.len() > 0
            invariant
                0 <= n <= start.len(),
                rest@ == start.skip(n),
                tags == text::names(proxy_tags@) + text::names(direct_tags@),
                kept@ == needed_sites(start, tags, n),
            decreases rest@.len(),
        {
            let site = rest.remove(0);
            assert(site == start[n]);
            assert(rest@ =~= start.skip(n + 1));
            let needed = tag_is_needed(proxy_tags, site.tag.as_str()) || tag_is_needed(
                direct_tags,
                site.tag.as_str(),
            );
            proof {
                lemma_needed(text::names(proxy_tags@), text::names(direct_tags@), site.tag@);
            }
            if needed {
                kept.push(site);
            }
            proof {
                n = n + 1;
            }
        }
        GeositeIndex { sites: kept }
    }
}

proof fn lemma_needed(a: Seq<Seq<char>>, b: Seq<Seq<char>>, name: Seq<char>)
    ensures
        is_needed(a + b, name) == (is_needed(a, name) || is_needed(b, name)),
{
    let all = a + b;
    if is_needed(a, name) {
        let i = choose|i: int|
            0 <= i < a.len() && text::lowercase(#[trigger] a[i]) == text::lowercase(name);
        assert(all[i] == a[i]);
    }
    if is_needed(b, name) {
        let i = choose|i: int|
            0 <= i < b.len() && text::lowercase(#[trigger] b[i]) == text::lowercase(name);
        assert(all[a.len() + i] == b[i]);
    }
    if is_needed(all, name) {
        let i = choose|i: int|
            0 <= i < all.len() && text::lowercase(#[trigger] all[i]) == text::lowercase(name);
        if i < a.len() {
            assert(a[i] == all[i]);
        } else {
            assert(b[i - a.len()] == all[i]);
        }
    }
}

/// Whether a domain is in the list of a name. Where several lists have the name,
/// the last counts.
pub fn geosite_contains(index: &GeositeIndex, tag: &str, domain: &str) -> (r: bool)
    ensures
        r == in_site(index.sites@, tag@, domain@),
{
    let lower = text::lowercase_str(tag);
    let mut n: usize = index.sites.len();
    while n > 0
        invariant
            n <= index.sites@.len(),
            lower@ == text::lowercase(tag@),
            rules_named(index.sites@, lower@, index.sites@.len() as int) == rules_named(
                index.sites@,
                lower@,
                n as int,
            ),
        decreases n,
    {
        let name = text::lowercase_str(index.sites[n - 1].tag.as_str());
        if text::str_eq(name.as_str(), lower.as_str()) {
            let rules = &index.sites[n - 1].rules;
            let mut i: usize = 0;
            while i < rules.len()
                invariant
                    i <= rules@.len(),
                    lower@ == text::lowercase(tag@),
                    rules_named(index.sites@, lower@, index.sites@.len() as int) == Some(rules@),
                    forall|k: int|
                        0 <= k < i ==> !rule_matches(
                            (#[trigger] rules@[k]).kind,
                            rules@[k].value@,
                            domain@,
                        ),
                decreases rules@.len() - i,
            {
                if geosite_domain_match(&rules[i], domain) {
                    return true;
                }
                i += 1;
            }
            return false;
        }
        n -= 1;
    }
    false
}

proof fn lemma_needed_rules(sites: Seq<GeoSite>, tags: Seq<Seq<char>>, tag: Seq<char>, n: int)
    requires
        0 <= n <= sites.len(),
        tags.contains(tag),
    ensures
        ({
            let kept = needed_sites(sites, tags, n);
            rules_named(kept, text::lowercase(tag), kept.len() as int) == rules_named(
                sites,
                text::lowercase(tag),
                n,
            )
        }),
    decreases n,
{
    if n > 0 {
        lemma_needed_rules(sites, tags, tag, n - 1);
        let before = needed_sites(sites, tags, n - 1);
        let kept = needed_sites(sites, tags, n);
        let lower = text::lowercase(tag);
        if is_needed(tags, sites[n - 1].tag@) {
            lemma_rules_prefix(before, kept, lower, before.len() as int);
        } else {
            let k = choose|k: int| 0 <= k < tags.len() && tags[k] == tag;
            assert(text::lowercase(tags[k]) == lower);
        }
    }
}

proof fn lemma_rules_prefix(a: Seq<GeoSite>, b: Seq<GeoSite>, tag: Seq<char>, n: int)
    requires
        0 <= n <= a.len() <= b.len(),
        forall|i: int| 0 <= i < a.len() ==> a[i] == b[i],
    ensures
        rules_named(a, tag, n) == rules_named(b, tag, n),
    decreases n,
{
    if n > 0 {
        lemma_rules_prefix(a, b, tag, n - 1);
    }
}

/// What is left out of an index makes no difference to the tags it was made for.
pub proof fn index_answers_for_its_tags(
    sites: Seq<GeoSite>,
    tags: Seq<Seq<char>>,
    tag: Seq<char>,
    domain: Seq<char>,
)
    requires
        tags.contains(tag),
    ensures
        in_site(needed_sites(sites, tags, sites.len() as int), tag, domain) == in_site(
            sites,
            tag,
            domain,
        ),
{
    lemma_needed_rules(sites, tags, tag, sites.len() as int);
}

/// The spelling of a domain does not change what lists it is in.
pub proof fn lists_ignore_spelling(sites: Seq<GeoSite>, tag: Seq<char>, a: Seq<char>, b: Seq<char>)
    requires
        util::canonical(a) == util::canonical(b),
    ensures
        in_site(sites, tag, a) == in_site(sites, tag, b),
{
    if let Some(rules) = rules_named(sites, text::lowercase(tag), sites.len() as int) {
        assert forall|i: int| 0 <= i < rules.len() implies rule_matches(
            (#[trigger] rules[i]).kind,
            rules[i].value@,
            a,
        ) == rule_matches(rules[i].kind, rules[i].value@, b) by {}
    }
}

// ---------------------------------------------------------------------------
// Lists in a file
// ---------------------------------------------------------------------------

/// A list of a file: its name, and the values of its rules, by kind.
pub struct DatSite {
    pub tag: String,
    pub plain: Vec<String>,
    pub regex: Vec<String>,
    pub domain: Vec<String>,
    pub full: Vec<String>,
}

pub struct DatView {
    pub tag: Seq<char>,
    pub plain: Seq<Seq<char>>,
    pub regex: Seq<Seq<char>>,
    pub domain: Seq<Seq<char>>,
    pub full: Seq<Seq<char>>,
}

impl View for DatSite {
    type V = DatView;

    open spec fn view(&self) -> DatView {
        DatView {
            tag: self.tag@,
            plain: text::names(self.plain@),
            regex: text::names(self.regex@),
            domain: text::names(self.domain@),
            full: text::names(self.full@),
        }
    }
}

pub open spec fn dat_views(sites: Option<Vec<DatSite>>) -> Option<Seq<DatView>> {
    match sites {
        Some(s) => Some(s@.map_values(|d: DatSite| d@)),
        None => None,
    }
}

/// The lists that `geosite_rs` finds in the bytes of a file, or `None` when they
/// do not decode.
pub uninterp spec fn sites_in_dat(data: Seq<u8>) -> Option<Seq<DatView>>;

/// `geosite_rs::decode_geosite`, and `geosite_to_hashmap` for each list, which
/// sorts the values by the number of their kind: 0 under `DOMAIN-KEYWORD`, 1 under
/// `DOMAIN-SUFFIX`, 2 under `DOMAIN`, 3 under `DOMAIN-REGEX`, and leaves out other
/// numbers. The target of a list is the empty text here, so a row is its value.
#[verifier::external_body]
fn decode_dat(data: &[u8]) -> (r: Option<Vec<DatSite>>)
    ensures
        dat_views(r) == sites_in_dat(data@),
{
    let list = geosite_rs::decode_geosite(data).ok()?;
    let decode = |site: geosite_rs::GeoSite| {
        let tag = site.country_code.clone();
        let targets = HashMap::from([(tag.clone(), String::new())]);
        let kinds = geosite_rs::geosite_to_hashmap(&GeoSiteList { entry: vec![site] }, targets);
        let rows = |kind: &str| kinds.get(kind).cloned().unwrap_or_default();
        let values = |kind: &str| rows(kind).iter().map(|row| row.concat()).collect();
        let (plain, regex) = (values("DOMAIN-KEYWORD"), values("DOMAIN-SUFFIX"));
        DatSite { tag, plain, regex, domain: values("DOMAIN"), full: values("DOMAIN-REGEX") }
    };
    Some(list.entry.into_iter().map(decode).collect())
}

pub open spec fn rule_views(rules: Seq<GeoRule>) -> Seq<(i32, Seq<char>)> {
    rules.map_values(|r: GeoRule| (r.kind, r.value@))
}

/// Rules of one kind.
pub open spec fn rules_of(kind: i32, values: Seq<Seq<char>>) -> Seq<(i32, Seq<char>)> {
    values.map_values(|v: Seq<char>| (kind, v))
}

/// The rules of a list of a file, kind after kind.
pub open spec fn dat_rules(d: DatView) -> Seq<(i32, Seq<char>)> {
    rules_of(0, d.plain) + rules_of(1, d.regex) + rules_of(2, d.domain) + rules_of(3, d.full)
}

pub open spec fn is_site_of(s: GeoSite, d: DatView) -> bool {
    s.tag@ == d.tag && rule_views(s.rules@) == dat_rules(d)
}

pub open spec fn are_sites_of(sites: Seq<GeoSite>, dat: Seq<DatView>) -> bool {
    &&& sites.len() == dat.len()
    &&& forall|i: int| 0 <= i < dat.len() ==> is_site_of(#[trigger] sites[i], dat[i])
}

fn append_rules(rules: &mut Vec<GeoRule>, kind: i32, values: &[String])
    ensures
        rule_views(final(rules)@) == rule_views(old(rules)@) + rules_of(kind, text::names(values@)),
{
    let ghost before = rule_views(rules@);
    let ghost all = text::names(values@);
    let mut i: usize = 0;
    assert(rule_views(rules@) =~= before + rules_of(kind, all.take(0)));
    while i < values.len()
        invariant
            i <= values@.len(),
            all == text::names(values@),
            rule_views(rules@) == before + rules_of(kind, all.take(i as int)),
        decreases values@.len() - i,
    {
        let ghost now = rules@;
        let rule = GeoRule { kind, value: text::copy_str(values[i].as_str()) };
        rules.push(rule);
        assert(rule_views(rules@) =~= rule_views(now).push((kind, all[i as int])));
        assert(rules_of(kind, all.take(i + 1)) =~= rules_of(kind, all.take(i as int)).push(
            (kind, all[i as int]),
        ));
        assert(rule_views(rules@) =~= before + rules_of(kind, all.take(i + 1)));
        i += 1;
    }
    assert(all.take(i as int) =~= all);
}

/// A list of a file, with its rules in one row.
pub fn site_of(d: &DatSite) -> (r: GeoSite)
    ensures
        is_site_of(r, d@),
{
    let mut rules: Vec<GeoRule> = Vec::new();
    append_rules(&mut rules, 0, d.plain.as_slice());
    append_rules(&mut rules, 1, d.regex.as_slice());
    append_rules(&mut rules, 2, d.domain.as_slice());
    append_rules(&mut rules, 3, d.full.as_slice());
    assert(rule_views(rules@) =~= dat_rules(d@));
    GeoSite { tag: text::copy_str(d.tag.as_str()), rules }
}

/// The lists in the bytes of a file, or `None` when they do not decode.
pub fn read_sites(data: &[u8]) -> (r: Option<Vec<GeoSite>>)
    ensures
        match (r, sites_in_dat(data@)) {
            (Some(sites), Some(dat)) => are_sites_of(sites@, dat),
            (None, None) => true,
            _ => false,
        },
{
    let dat = match decode_dat(data) {
        Some(dat) => dat,
        None => return None,
    };
    let mut sites: Vec<GeoSite> = Vec::new();
    let mut i: usize = 0;
    while i < dat.len()
        invariant
            i <= dat@.len(),
            sites@.len() == i,
            forall|k: int| 0 <= k < i ==> is_site_of(#[trigger] sites@[k], dat@[k]@),
        decreases dat@.len() - i,
    {
        sites.push(site_of(&dat[i]));
        i += 1;
    }
    Some(sites)
}

/// An index is that of the lists of a file, for the tags that are of use.
pub open spec fn is_index_of(index: GeositeIndex, dat: Seq<DatView>, tags: Seq<Seq<char>>) -> bool {
    exists|sites: Seq<GeoSite>|
        are_sites_of(sites, dat) && index.sites@ == #[trigger] needed_sites(
            sites,
            tags,
            dat.len() as int,
        )
}

/// A list of a file answers for a domain exactly when one of its plain values
/// occurs in it, one of its domains is it or above it, or one of its full values
/// is it.
pub proof fn file_lists_answer_by_kind(s: GeoSite, d: DatView, domain: Seq<char>)
    requires
        is_site_of(s, d),
    ensures
        some_rule_matches(s.rules@, domain) <==> {
            ||| exists|i: int| 0 <= i < d.plain.len() && rule_matches(0, #[trigger] d.plain[i], domain)
            ||| exists|i: int| 0 <= i < d.domain.len() && rule_matches(2, #[trigger] d.domain[i], domain)
            ||| exists|i: int| 0 <= i < d.full.len() && rule_matches(3, #[trigger] d.full[i], domain)
        },
{
    let views = rule_views(s.rules@);
    let a = d.plain.len() as int;
    let b = a + d.regex.len();
    let c = b + d.domain.len();
    assert(views.len() == s.rules@.len());
    assert(rules_of(0, d.plain).len() == a);
    assert(rules_of(1, d.regex).len() == b - a);
    assert(rules_of(2, d.domain).len() == c - b);
    assert(rules_of(3, d.full).len() == d.full.len());
    assert(views.len() == c + d.full.len());
    if some_rule_matches(s.rules@, domain) {
        let i = choose|i: int|
            0 <= i < s.rules@.len() && rule_matches(
                (#[trigger] s.rules@[i]).kind,
                s.rules@[i].value@,
                domain,
            );
        assert(views[i] == (s.rules@[i].kind, s.rules@[i].value@));
        if i < a {
            assert(views[i] == (0i32, d.plain[i]));
        } else if i < b {
            assert(views[i] == (1i32, d.regex[i - a]));
        } else if i < c {
            assert(views[i] == (2i32, d.domain[i - b]));
        } else {
            assert(views[i] == (3i32, d.full[i - c]));
        }
    }
    if exists|i: int| 0 <= i < d.plain.len() && rule_matches(0, #[trigger] d.plain[i], domain) {
        let i = choose|i: int|
            0 <= i < d.plain.len() && rule_matches(0, #[trigger] d.plain[i], domain);
        assert(views[i] == (0i32, d.plain[i]));
        assert(s.rules@[i].kind == 0);
    }
    if exists|i: int| 0 <= i < d.domain.len() && rule_matches(2, #[trigger] d.domain[i], domain) {
        let i = choose|i: int|
            0 <= i < d.domain.len() && rule_matches(2, #[trigger] d.domain[i], domain);
        assert(views[b + i] == (2i32, d.domain[i]));
        assert(s.rules@[b + i].kind == 2);
    }
    if exists|i: int| 0 <= i < d.full.len() && rule_matches(3, #[trigger] d.full[i], domain) {
        let i = choose|i: int|
            0 <= i < d.full.len() && rule_matches(3, #[trigger] d.full[i], domain);
        assert(views[c + i] == (3i32, d.full[i]));
        assert(s.rules@[c + i].kind == 3);
    }
}

} // verus!
