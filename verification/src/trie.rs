//! Sets of networks that are asked for the longest prefix of an address.

use crate::net;
use crate::net::{IpAddr, IpNet, Ipv4Addr, Ipv6Addr};
use iptrie::IpPrefix;
use vstd::prelude::*;

verus! {

/// A prefix: its bits and how many there are.
pub open spec fn prefix_of(ip: IpAddr, len: int) -> (nat, int) {
    (net::first_bits(ip, len), len)
}

/// `iptrie::Ipv4RTrieSet`, a radix trie of IPv4 prefixes.
#[verifier::external_body]
pub struct Ipv4Trie {
    inner: iptrie::Ipv4RTrieSet,
}

/// The prefixes in a trie.
pub uninterp spec fn v4_prefixes(t: Ipv4Trie) -> Set<(nat, int)>;

/// `iptrie::Ipv6RTrieSet`, a radix trie of IPv6 prefixes.
#[verifier::external_body]
pub struct Ipv6Trie {
    inner: iptrie::Ipv6RTrieSet,
}

/// The prefixes in a trie.
pub uninterp spec fn v6_prefixes(t: Ipv6Trie) -> Set<(nat, int)>;

/// `len` is the length of the longest prefix of `ip` in a set that holds the
/// prefix of no bits.
pub open spec fn is_longest(prefixes: Set<(nat, int)>, ip: IpAddr, len: int) -> bool {
    &&& 0 <= len <= net::width(ip)
    &&& prefixes.contains(prefix_of(ip, len))
    &&& forall|l: int|
        len < l <= net::width(ip) ==> !(#[trigger] prefixes.contains(prefix_of(ip, l)))
}

/// Some prefix in the set starts the address.
pub open spec fn covered(prefixes: Set<(nat, int)>, ip: IpAddr) -> bool {
    exists|len: int|
        0 <= len <= net::width(ip) && #[trigger] prefixes.contains(prefix_of(ip, len))
}

impl Ipv4Trie {
    /// `iptrie::set::RTrieSet::new`: the trie holds the prefix of no bits.
    #[verifier::external_body]
    fn root_only() -> (r: Self)
        ensures
            v4_prefixes(r) == set![(0nat, 0int)],
    {
        Ipv4Trie { inner: iptrie::Ipv4RTrieSet::new() }
    }

    /// `iptrie::Ipv4Prefix::new` and `RTrieSet::insert`: the first `len` bits of
    /// the address become a prefix of the trie.
    #[verifier::external_body]
    fn insert(&mut self, addr: Ipv4Addr, len: u8)
        requires
            len <= 32,
        ensures
            v4_prefixes(*final(self)) == v4_prefixes(*old(self)).insert(
                prefix_of(IpAddr::V4(addr), len as int),
            ),
    {
        if let Ok(prefix) = iptrie::Ipv4Prefix::new(addr.bits.into(), len) {
            self.inner.insert(prefix);
        }
    }

    /// `RTrieSet::lookup`: the length of the longest prefix in the trie that the
    /// address starts with.
    #[verifier::external_body]
    fn lookup(&self, ip: Ipv4Addr) -> (r: u8)
        ensures
            v4_prefixes(*self).contains((0nat, 0int)) ==> is_longest(
                v4_prefixes(*self),
                IpAddr::V4(ip),
                r as int,
            ),
    {
        self.inner.lookup(&core::net::Ipv4Addr::from(ip.bits)).len()
    }
}

/// A set of IPv4 networks. Every trie holds the prefix of no bits, so that of all
/// addresses is noted beside it.
pub struct Ipv4RTrieSet {
    trie: Ipv4Trie,
    all: bool,
}

impl Ipv4RTrieSet {
    /// The prefix of no bits, which every trie is made with, is there.
    pub closed spec fn wf(self) -> bool {
        v4_prefixes(self.trie).contains((0nat, 0int))
    }

    /// The prefixes in the set.
    pub closed spec fn prefixes(self) -> Set<(nat, int)> {
        if self.all {
            v4_prefixes(self.trie)
        } else {
            v4_prefixes(self.trie).remove((0nat, 0int))
        }
    }

    /// A network of the set has the address.
    pub open spec fn covers(self, ip: Ipv4Addr) -> bool {
        covered(self.prefixes(), IpAddr::V4(ip))
    }

    /// A set without networks.
    pub fn new() -> (r: Self)
        ensures
            r.wf(),
            r.prefixes() == Set::<(nat, int)>::empty(),
            forall|ip: Ipv4Addr| !r.covers(ip),
    {
        let r = Ipv4RTrieSet { trie: Ipv4Trie::root_only(), all: false };
        assert(r.prefixes() =~= Set::<(nat, int)>::empty());
        r
    }

    /// Adds the network of the first `len` bits of an address.
    pub fn add_prefix(&mut self, addr: Ipv4Addr, len: u8)
        requires
            old(self).wf(),
            len <= 32,
        ensures
            final(self).wf(),
            final(self).prefixes() == old(self).prefixes().insert(
                prefix_of(IpAddr::V4(addr), len as int),
            ),
    {
        let ghost before = self.prefixes();
        proof {
            net::lemma_no_bits(IpAddr::V4(addr));
        }
        self.trie.insert(addr, len);
        if len == 0 {
            self.all = true;
        }
        assert(self.prefixes() =~= before.insert(prefix_of(IpAddr::V4(addr), len as int)));
    }

    /// Whether a network of the set has the address.
    pub fn contains(&self, ip: Ipv4Addr) -> (r: bool)
        requires
            self.wf(),
        ensures
            r == self.covers(ip),
    {
        let len = self.trie.lookup(ip);
        proof {
            net::lemma_no_bits(IpAddr::V4(ip));
            let inner = v4_prefixes(self.trie);
            if len != 0 {
                assert(self.prefixes().contains(prefix_of(IpAddr::V4(ip), len as int)));
            } else if self.all {
                assert(self.prefixes().contains(prefix_of(IpAddr::V4(ip), 0)));
            } else if self.covers(ip) {
                let l = choose|l: int|
                    0 <= l <= net::width(IpAddr::V4(ip)) && #[trigger] self.prefixes().contains(
                        prefix_of(IpAddr::V4(ip), l),
                    );
                assert(inner.contains(prefix_of(IpAddr::V4(ip), l)));
            }
        }
        len != 0 || self.all
    }
}

impl Ipv6Trie {
    /// `iptrie::set::RTrieSet::new`: the trie holds the prefix of no bits.
    #[verifier::external_body]
    fn root_only() -> (r: Self)
        ensures
            v6_prefixes(r) == set![(0nat, 0int)],
    {
        Ipv6Trie { inner: iptrie::Ipv6RTrieSet::new() }
    }

    /// `iptrie::Ipv6Prefix::new` and `RTrieSet::insert`: the first `len` bits of
    /// the address become a prefix of the trie.
    #[verifier::external_body]
    fn insert(&mut self, addr: Ipv6Addr, len: u8)
        requires
            len <= 128,
        ensures
            v6_prefixes(*final(self)) == v6_prefixes(*old(self)).insert(
                prefix_of(IpAddr::V6(addr), len as int),
            ),
    {
        if let Ok(prefix) = iptrie::Ipv6Prefix::new(addr.bits.into(), len) {
            self.inner.insert(prefix);
        }
    }

    /// `RTrieSet::lookup`: the length of the longest prefix in the trie that the
    /// address starts with.
    #[verifier::external_body]
    fn lookup(&self, ip: Ipv6Addr) -> (r: u8)
        ensures
            v6_prefixes(*self).contains((0nat, 0int)) ==> is_longest(
                v6_prefixes(*self),
                IpAddr::V6(ip),
                r as int,
            ),
    {
        self.inner.lookup(&core::net::Ipv6Addr::from(ip.bits)).len()
    }
}

/// A set of IPv6 networks. Every trie holds the prefix of no bits, so that of all
/// addresses is noted beside it.
pub struct Ipv6RTrieSet {
    trie: Ipv6Trie,
    all: bool,
}

impl Ipv6RTrieSet {
    /// The prefix of no bits, which every trie is made with, is there.
    pub closed spec fn wf(self) -> bool {
        v6_prefixes(self.trie).contains((0nat, 0int))
    }

    /// The prefixes in the set.
    pub closed spec fn prefixes(self) -> Set<(nat, int)> {
        if self.all {
            v6_prefixes(self.trie)
        } else {
            v6_prefixes(self.trie).remove((0nat, 0int))
        }
    }

    /// A network of the set has the address.
    pub open spec fn covers(self, ip: Ipv6Addr) -> bool {
        covered(self.prefixes(), IpAddr::V6(ip))
    }

    /// A set without networks.
    pub fn new() -> (r: Self)
        ensures
            r.wf(),
            r.prefixes() == Set::<(nat, int)>::empty(),
            forall|ip: Ipv6Addr| !r.covers(ip),
    {
        let r = Ipv6RTrieSet { trie: Ipv6Trie::root_only(), all: false };
        assert(r.prefixes() =~= Set::<(nat, int)>::empty());
        r
    }

    /// Adds the network of the first `len` bits of an address.
    pub fn add_prefix(&mut self, addr: Ipv6Addr, len: u8)
        requires
            old(self).wf(),
            len <= 128,
        ensures
            final(self).wf(),
            final(self).prefixes() == old(self).prefixes().insert(
                prefix_of(IpAddr::V6(addr), len as int),
            ),
    {
        let ghost before = self.prefixes();
        proof {
            net::lemma_no_bits(IpAddr::V6(addr));
        }
        self.trie.insert(addr, len);
        if len == 0 {
            self.all = true;
        }
        assert(self.prefixes() =~= before.insert(prefix_of(IpAddr::V6(addr), len as int)));
    }

    /// Whether a network of the set has the address.
    pub fn contains(&self, ip: Ipv6Addr) -> (r: bool)
        requires
            self.wf(),
        ensures
            r == self.covers(ip),
    {
        let len = self.trie.lookup(ip);
        proof {
            net::lemma_no_bits(IpAddr::V6(ip));
            let inner = v6_prefixes(self.trie);
            if len != 0 {
                assert(self.prefixes().contains(prefix_of(IpAddr::V6(ip), len as int)));
            } else if self.all {
                assert(self.prefixes().contains(prefix_of(IpAddr::V6(ip), 0)));
            } else if self.covers(ip) {
                let l = choose|l: int|
                    0 <= l <= net::width(IpAddr::V6(ip)) && #[trigger] self.prefixes().contains(
                        prefix_of(IpAddr::V6(ip), l),
                    );
                assert(inner.contains(prefix_of(IpAddr::V6(ip), l)));
            }
        }
        len != 0 || self.all
    }
}

/// The prefix of a network.
pub open spec fn net_prefix(n: IpNet) -> (nat, int) {
    prefix_of(n.addr, n.prefix_len as int)
}

/// The prefixes of the IPv4 networks of a list.
pub open spec fn v4_net_prefixes(nets: Seq<IpNet>) -> Set<(nat, int)> {
    Set::new(
        |p: (nat, int)|
            exists|i: int|
                0 <= i < nets.len() && (#[trigger] nets[i]).addr is V4 && p == net_prefix(nets[i]),
    )
}

/// The prefixes of the IPv6 networks of a list.
pub open spec fn v6_net_prefixes(nets: Seq<IpNet>) -> Set<(nat, int)> {
    Set::new(
        |p: (nat, int)|
            exists|i: int|
                0 <= i < nets.len() && (#[trigger] nets[i]).addr is V6 && p == net_prefix(nets[i]),
    )
}

pub open spec fn all_nets_wf(nets: Seq<IpNet>) -> bool {
    forall|i: int| 0 <= i < nets.len() ==> (#[trigger] nets[i]).wf()
}

/// Puts networks into tries, one for each family. `None` when a prefix is longer
/// than an address.
pub fn build_ip_tries(nets: &[IpNet]) -> (r: Option<(Ipv4RTrieSet, Ipv6RTrieSet)>)
    ensures
        r is Some <==> all_nets_wf(nets@),
        r matches Some((v4, v6)) ==> {
            &&& v4.wf() && v4.prefixes() == v4_net_prefixes(nets@)
            &&& v6.wf() && v6.prefixes() == v6_net_prefixes(nets@)
        },
{
    let mut v4 = Ipv4RTrieSet::new();
    let mut v6 = Ipv6RTrieSet::new();
    let mut i: usize = 0;
    assert(v4.prefixes() =~= v4_net_prefixes(nets@.take(0)));
    assert(v6.prefixes() =~= v6_net_prefixes(nets@.take(0)));
    while i < nets.len()
        invariant
            i <= nets@.len(),
            v4.wf(),
            v6.wf(),
            v4.prefixes() == v4_net_prefixes(nets@.take(i as int)),
            v6.prefixes() == v6_net_prefixes(nets@.take(i as int)),
            forall|j: int| 0 <= j < i ==> (#[trigger] nets@[j]).wf(),
        decreases nets@.len() - i,
    {
        let net = nets[i];
        let ghost before = nets@.take(i as int);
        let ghost after = nets@.take(i + 1);
        assert(after =~= before.push(net));
        let ghost p4 = v4.prefixes();
        let ghost p6 = v6.prefixes();
        match net.addr {
            IpAddr::V4(addr) => {
                if net.prefix_len > 32 {
                    assert(!nets@[i as int].wf());
                    return None;
                }
                v4.add_prefix(addr, net.prefix_len);
            },
            IpAddr::V6(addr) => {
                if net.prefix_len > 128 {
                    assert(!nets@[i as int].wf());
                    return None;
                }
                v6.add_prefix(addr, net.prefix_len);
            },
        }
        proof {
            lemma_prefixes_push(before, net);
            assert(v4.prefixes() =~= v4_net_prefixes(after));
            assert(v6.prefixes() =~= v6_net_prefixes(after));
        }
        i += 1;
    }
    assert(nets@.take(i as int) =~= nets@);
    Some((v4, v6))
}

proof fn lemma_prefixes_push(nets: Seq<IpNet>, n: IpNet)
    ensures
        n.addr is V4 ==> v4_net_prefixes(nets.push(n)) == v4_net_prefixes(nets).insert(
            net_prefix(n),
        ) && v6_net_prefixes(nets.push(n)) == v6_net_prefixes(nets),
        n.addr is V6 ==> v6_net_prefixes(nets.push(n)) == v6_net_prefixes(nets).insert(
            net_prefix(n),
        ) && v4_net_prefixes(nets.push(n)) == v4_net_prefixes(nets),
{
    let more = nets.push(n);
    assert(forall|i: int| 0 <= i < nets.len() ==> more[i] == nets[i]);
    assert(more[nets.len() as int] == n);
    if n.addr is V4 {
        assert(v4_net_prefixes(more) =~= v4_net_prefixes(nets).insert(net_prefix(n)));
        assert(v6_net_prefixes(more) =~= v6_net_prefixes(nets));
    } else {
        assert(v6_net_prefixes(more) =~= v6_net_prefixes(nets).insert(net_prefix(n)));
        assert(v4_net_prefixes(more) =~= v4_net_prefixes(nets));
    }
}

/// The tries of a list cover an address exactly when a network of the list has
/// it.
pub proof fn tries_cover_what_the_networks_have(nets: Seq<IpNet>, ip: IpAddr)
    requires
        all_nets_wf(nets),
    ensures
        covered(
            if ip is V4 {
                v4_net_prefixes(nets)
            } else {
                v6_net_prefixes(nets)
            },
            ip,
        ) <==> exists|i: int|
            0 <= i < nets.len() && (#[trigger] nets[i]).has(ip),
{
    let prefixes = if ip is V4 {
        v4_net_prefixes(nets)
    } else {
        v6_net_prefixes(nets)
    };
    if covered(prefixes, ip) {
        let len = choose|len: int|
            0 <= len <= net::width(ip) && #[trigger] prefixes.contains(prefix_of(ip, len));
        let i = choose|i: int|
            0 <= i < nets.len() && ((#[trigger] nets[i]).addr is V4 <==> ip is V4) && prefix_of(
                ip,
                len,
            ) == net_prefix(nets[i]);
        assert(nets[i].has(ip));
    }
    if exists|i: int| 0 <= i < nets.len() && (#[trigger] nets[i]).has(ip) {
        let i = choose|i: int|
            0 <= i < nets.len() && (#[trigger] nets[i]).has(ip);
        assert(prefixes.contains(prefix_of(ip, nets[i].prefix_len as int)));
    }
}

} // verus!
