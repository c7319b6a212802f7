//! A small cache whose entries lose their worth after a while.

use crate::net::IpAddr;
use crate::text;
use vstd::prelude::*;

verus! {

/// What a cache finds its entries by.
pub trait CacheKey {
    type Key;

    spec fn key(&self) -> Self::Key;

    fn same_key(&self, other: &Self) -> (r: bool)
        ensures
            r == (self.key() == other.key()),
    ;
}

impl CacheKey for IpAddr {
    type Key = IpAddr;

    open spec fn key(&self) -> IpAddr {
        *self
    }

    fn same_key(&self, other: &Self) -> (r: bool) {
        *self == *other
    }
}

/// A client, the address that it wants to reach, and the domain if it is known.
pub struct FlowKey {
    pub client: IpAddr,
    pub target: IpAddr,
    pub domain: Option<String>,
}

/// The view of an optional string.
pub open spec fn opt_string(s: Option<String>) -> Option<Seq<char>> {
    match s {
        Some(t) => Some(t@),
        None => None,
    }
}

impl FlowKey {
    pub fn new(client: IpAddr, target: IpAddr, domain: Option<&str>) -> (r: Self)
        ensures
            r.key() == (client, target, text::opt_text(domain)),
    {
        FlowKey {
            client,
            target,
            domain: match domain {
                Some(d) => Some(text::copy_str(d)),
                None => None,
            },
        }
    }
}

impl CacheKey for FlowKey {
    type Key = (IpAddr, IpAddr, Option<Seq<char>>);

    open spec fn key(&self) -> (IpAddr, IpAddr, Option<Seq<char>>) {
        (self.client, self.target, opt_string(self.domain))
    }

    fn same_key(&self, other: &Self) -> (r: bool) {
        let domains = match (&self.domain, &other.domain) {
            (Some(a), Some(b)) => text::str_eq(a.as_str(), b.as_str()),
            (None, None) => true,
            _ => false,
        };
        domains && self.client == other.client && self.target == other.target
    }
}

/// A value, what it is found by, and when it was put.
pub struct CacheEntry<K, V> {
    pub key: K,
    pub value: V,
    pub at: u64,
}

/// Values that are good for some seconds. No two have the same key. When the
/// cache is full, what is too old leaves, and if nothing is, the oldest.
pub struct TtlCache<K, V> {
    pub entries: Vec<CacheEntry<K, V>>,
    /// How long a value is good; 0 for no cache.
    pub ttl_secs: u64,
    pub max: usize,
}

/// A value put at `at` is still good.
pub open spec fn is_fresh(at: u64, now: u64, ttl: u64) -> bool {
    now - at < ttl && 0 < ttl
}

/// The first entry from `from` on with a key.
pub open spec fn entry_at<K: CacheKey, V>(
    entries: Seq<CacheEntry<K, V>>,
    key: K::Key,
    from: int,
) -> Option<int>
    decreases entries.len() - from,
{
    if from < 0 || from >= entries.len() {
        None
    } else if entries[from].key.key() == key {
        Some(from)
    } else {
        entry_at(entries, key, from + 1)
    }
}

/// The entries among the first `n` that do not have a key.
pub open spec fn without_key<K: CacheKey, V>(
    entries: Seq<CacheEntry<K, V>>,
    key: K::Key,
    n: int,
) -> Seq<CacheEntry<K, V>>
    decreases n,
{
    if n <= 0 {
        Seq::empty()
    } else if entries[n - 1].key.key() == key {
        without_key(entries, key, n - 1)
    } else {
        without_key(entries, key, n - 1).push(entries[n - 1])
    }
}

/// The entries among the first `n` that are still good.
pub open spec fn fresh_only<K, V>(
    entries: Seq<CacheEntry<K, V>>,
    now: u64,
    ttl: u64,
    n: int,
) -> Seq<CacheEntry<K, V>>
    decreases n,
{
    if n <= 0 {
        Seq::empty()
    } else if is_fresh(entries[n - 1].at, now, ttl) {
        fresh_only(entries, now, ttl, n - 1).push(entries[n - 1])
    } else {
        fresh_only(entries, now, ttl, n - 1)
    }
}

/// The entries after room was made for one more.
pub open spec fn with_room<K, V>(
    entries: Seq<CacheEntry<K, V>>,
    now: u64,
    ttl: u64,
    max: usize,
) -> Seq<CacheEntry<K, V>> {
    if entries.len() < max {
        entries
    } else {
        let fresh = fresh_only(entries, now, ttl, entries.len() as int);
        if fresh.len() < max {
            fresh
        } else {
            fresh.skip(1)
        }
    }
}

/// No two entries have the same key.
pub open spec fn keys_differ<K: CacheKey, V>(entries: Seq<CacheEntry<K, V>>) -> bool {
    forall|i: int, j: int|
        #![trigger entries[i], entries[j]]
        0 <= i < j < entries.len() ==> entries[i].key.key() != entries[j].key.key()
}

/// Every entry of the one is an entry of the other.
pub open spec fn entries_from<K, V>(
    a: Seq<CacheEntry<K, V>>,
    b: Seq<CacheEntry<K, V>>,
) -> bool {
    forall|i: int| 0 <= i < a.len() ==> b.contains(#[trigger] a[i])
}

proof fn lemma_entry_at<K: CacheKey, V>(entries: Seq<CacheEntry<K, V>>, key: K::Key, from: int)
    requires
        0 <= from <= entries.len(),
    ensures
        match entry_at(entries, key, from) {
            Some(p) => {
                &&& from <= p < entries.len()
                &&& entries[p].key.key() == key
                &&& forall|i: int| from <= i < p ==> (#[trigger] entries[i]).key.key() != key
            },
            None => forall|i: int|
                from <= i < entries.len() ==> (#[trigger] entries[i]).key.key() != key,
        },
    decreases entries.len() - from,
{
    if from < entries.len() && entries[from].key.key() != key {
        lemma_entry_at(entries, key, from + 1);
    }
}

proof fn lemma_without_key<K: CacheKey, V>(entries: Seq<CacheEntry<K, V>>, key: K::Key, n: int)
    requires
        0 <= n <= entries.len(),
        keys_differ(entries),
    ensures
        ({
            let kept = without_key(entries, key, n);
            &&& kept.len() <= n
            &&& keys_differ(kept)
            &&& entries_from(kept, entries.take(n))
            &&& forall|i: int| 0 <= i < kept.len() ==> (#[trigger] kept[i]).key.key() != key
            &&& forall|i: int|
                0 <= i < n && (#[trigger] entries[i]).key.key() != key ==> kept.contains(entries[i])
        }),
    decreases n,
{
    if n > 0 {
        lemma_without_key(entries, key, n - 1);
        let before = without_key(entries, key, n - 1);
        let kept = without_key(entries, key, n);
        let shorter = entries.take(n - 1);
        let longer = entries.take(n);
        assert(forall|i: int| 0 <= i < n - 1 ==> longer[i] == shorter[i]);
        assert(longer[n - 1] == entries[n - 1]);
        assert forall|i: int| 0 <= i < kept.len() implies longer.contains(#[trigger] kept[i]) by {
            if i < before.len() {
                assert(shorter.contains(before[i]));
                let k = choose|k: int| 0 <= k < shorter.len() && shorter[k] == before[i];
                assert(longer[k] == kept[i]);
            }
        }
        assert forall|i: int, j: int|
            #![trigger kept[i], kept[j]]
            0 <= i < j < kept.len() implies kept[i].key.key() != kept[j].key.key() by {
            if j == before.len() {
                assert(shorter.contains(before[i]));
                let k = choose|k: int| 0 <= k < shorter.len() && shorter[k] == before[i];
                assert(entries[k].key.key() != entries[n - 1].key.key());
            } else {
                assert(before[i].key.key() != before[j].key.key());
            }
        }
        assert forall|i: int|
            0 <= i < n && (#[trigger] entries[i]).key.key() != key implies kept.contains(
            entries[i],
        ) by {
            if i < n - 1 {
                assert(before.contains(entries[i]));
                let k = choose|k: int| 0 <= k < before.len() && before[k] == entries[i];
                assert(kept[k] == entries[i]);
            } else {
                assert(kept[before.len() as int] == entries[i]);
            }
        }
    }
}

proof fn lemma_fresh_only<K: CacheKey, V>(
    entries: Seq<CacheEntry<K, V>>,
    now: u64,
    ttl: u64,
    n: int,
)
    requires
        0 <= n <= entries.len(),
        keys_differ(entries),
    ensures
        ({
            let kept = fresh_only(entries, now, ttl, n);
            &&& kept.len() <= n
            &&& keys_differ(kept)
            &&& entries_from(kept, entries.take(n))
        }),
    decreases n,
{
    if n > 0 {
        lemma_fresh_only(entries, now, ttl, n - 1);
        let before = fresh_only(entries, now, ttl, n - 1);
        let kept = fresh_only(entries, now, ttl, n);
        let shorter = entries.take(n - 1);
        let longer = entries.take(n);
        assert(forall|i: int| 0 <= i < n - 1 ==> longer[i] == shorter[i]);
        assert(longer[n - 1] == entries[n - 1]);
        assert forall|i: int| 0 <= i < kept.len() implies longer.contains(#[trigger] kept[i]) by {
            if i < before.len() {
                assert(shorter.contains(before[i]));
                let k = choose|k: int| 0 <= k < shorter.len() && shorter[k] == before[i];
                assert(longer[k] == kept[i]);
            }
        }
        assert forall|i: int, j: int|
            #![trigger kept[i], kept[j]]
            0 <= i < j < kept.len() implies kept[i].key.key() != kept[j].key.key() by {
            if j == before.len() {
                assert(shorter.contains(before[i]));
                let k = choose|k: int| 0 <= k < shorter.len() && shorter[k] == before[i];
                assert(entries[k].key.key() != entries[n - 1].key.key());
            } else {
                assert(before[i].key.key() != before[j].key.key());
            }
        }
    }
}

proof fn lemma_with_room<K: CacheKey, V>(
    entries: Seq<CacheEntry<K, V>>,
    now: u64,
    ttl: u64,
    max: usize,
)
    requires
        keys_differ(entries),
        entries.len() <= max,
        max > 0,
    ensures
        ({
            let kept = with_room(entries, now, ttl, max);
            &&& kept.len() < max
            &&& keys_differ(kept)
            &&& entries_from(kept, entries)
        }),
{
    lemma_fresh_only(entries, now, ttl, entries.len() as int);
    assert(entries.take(entries.len() as int) =~= entries);
    let fresh = fresh_only(entries, now, ttl, entries.len() as int);
    let kept = with_room(entries, now, ttl, max);
    if entries.len() >= max && fresh.len() >= max {
        assert forall|i: int| 0 <= i < kept.len() implies entries.contains(#[trigger] kept[i]) by {
            assert(kept[i] == fresh[i + 1]);
        }
        assert forall|i: int, j: int|
            #![trigger kept[i], kept[j]]
            0 <= i < j < kept.len() implies kept[i].key.key() != kept[j].key.key() by {
            assert(fresh[i + 1].key.key() != fresh[j + 1].key.key());
        }
    }
}

impl<K: CacheKey, V> TtlCache<K, V> {
    /// The keys differ, and the cache is not over its limit.
    pub open spec fn wf(self) -> bool {
        &&& keys_differ(self.entries@)
        &&& self.entries@.len() <= self.max
    }

    /// The value for a key, while it is good.
    pub open spec fn value(self, key: K::Key, now: u64) -> Option<V> {
        match entry_at(self.entries@, key, 0) {
            Some(i) => if is_fresh(self.entries@[i].at, now, self.ttl_secs) {
                Some(self.entries@[i].value)
            } else {
                None
            },
            None => None,
        }
    }

    /// The entries after a value was put.
    pub open spec fn entries_with(self, key: K, value: V, now: u64) -> Seq<CacheEntry<K, V>> {
        if self.ttl_secs == 0 || self.max == 0 {
            self.entries@
        } else {
            with_room(
                without_key(self.entries@, key.key(), self.entries@.len() as int),
                now,
                self.ttl_secs,
                self.max,
            ).push(CacheEntry { key, value, at: now })
        }
    }

    /// An empty cache.
    pub fn new(ttl_secs: u64, max: usize) -> (r: Self)
        ensures
            r.entries@.len() == 0,
            r.ttl_secs == ttl_secs,
            r.max == max,
            r.wf(),
    {
        TtlCache { entries: Vec::new(), ttl_secs, max }
    }

    /// The value for a key, while it is good.
    pub fn get(&self, key: &K, now: u64) -> (r: Option<&V>)
        ensures
            match r {
                Some(v) => self.value(key.key(), now) == Some(*v),
                None => self.value(key.key(), now) is None,
            },
    {
        let mut i: usize = 0;
        while i < self.entries.len()
            invariant
                i <= self.entries@.len(),
                entry_at(self.entries@, key.key(), 0) == entry_at(
                    self.entries@,
                    key.key(),
                    i as int,
                ),
            decreases self.entries@.len() - i,
        {
            if self.entries[i].key.same_key(key) {
                if now.saturating_sub(self.entries[i].at) < self.ttl_secs {
                    return Some(&self.entries[i].value);
                }
                return None;
            }
            i += 1;
        }
        None
    }

    /// Takes out the entry with a key.
    pub fn remove(&mut self, key: &K)
        ensures
            final(self).entries@ == without_key(
                old(self).entries@,
                key.key(),
                old(self).entries@.len() as int,
            ),
            final(self).ttl_secs == old(self).ttl_secs,
            final(self).max == old(self).max,
            old(self).wf() ==> final(self).wf(),
    {
        let ghost start = self.entries@;
        let ghost mut n: int = 0;
        let mut kept: Vec<CacheEntry<K, V>> = Vec::new();
        assert(start.skip(0) =~= start);
        while self.entries.len() > 0
            invariant
                0 <= n <= start.len(),
                self.entries@ == start.skip(n),
                kept@ == without_key(start, key.key(), n),
                self.ttl_secs == old(self).ttl_secs,
                self.max == old(self).max,
                start == old(self).entries@,
            decreases self.entries@.len(),
        {
            let e = self.entries.remove(0);
            assert(e == start[n]);
            assert(self.entries@ =~= start.skip(n + 1));
            if !e.key.same_key(key) {
                kept.push(e);
            }
            proof {
                n = n + 1;
            }
        }
        self.entries = kept;
        proof {
            if old(self).wf() {
                lemma_without_key(start, key.key(), start.len() as int);
            }
        }
    }

    fn make_room(&mut self, now: u64)
        requires
            old(self).max > 0,
        ensures
            final(self).entries@ == with_room(
                old(self).entries@,
                now,
                old(self).ttl_secs,
                old(self).max,
            ),
            final(self).ttl_secs == old(self).ttl_secs,
            final(self).max == old(self).max,
    {
        if self.entries.len() < self.max {
            return;
        }
        let ghost start = self.entries@;
        let ghost mut n: int = 0;
        let mut kept: Vec<CacheEntry<K, V>> = Vec::new();
        assert(start.skip(0) =~= start);
        while self.entries.len() > 0
            invariant
                0 <= n <= start.len(),
                self.entries@ == start.skip(n),
                kept@ == fresh_only(start, now, self.ttl_secs, n),
                self.ttl_secs == old(self).ttl_secs,
                self.max == old(self).max,
                self.max > 0,
            decreases self.entries@.len(),
        {
            let e = self.entries.remove(0);
            assert(e == start[n]);
            assert(self.entries@ =~= start.skip(n + 1));
            if now.saturating_sub(e.at) < self.ttl_secs {
                kept.push(e);
            }
            proof {
                n = n + 1;
            }
        }
        if kept.len() >= self.max {
            let ghost fresh = kept@;
            let _oldest = kept.remove(0);
            assert(kept@ =~= fresh.skip(1));
        }
        self.entries = kept;
    }

    /// Puts a value for a key, in place of the one that is there.
    pub fn put(&mut self, key: K, value: V, now: u64)
        requires
            old(self).wf(),
        ensures
            final(self).entries@ == old(self).entries_with(key, value, now),
            final(self).ttl_secs == old(self).ttl_secs,
            final(self).max == old(self).max,
            final(self).wf(),
    {
        if self.ttl_secs == 0 || self.max == 0 {
            return;
        }
        let ghost start = self.entries@;
        proof {
            lemma_without_key(start, key.key(), start.len() as int);
            lemma_with_room(
                without_key(start, key.key(), start.len() as int),
                now,
                self.ttl_secs,
                self.max,
            );
        }
        self.remove(&key);
        let ghost bare = self.entries@;
        self.make_room(now);
        let ghost room = self.entries@;
        let ghost k = key.key();
        self.entries.push(CacheEntry { key, value, at: now });
        proof {
            let all = self.entries@;
            assert forall|i: int, j: int|
                #![trigger all[i], all[j]]
                0 <= i < j < all.len() implies all[i].key.key() != all[j].key.key() by {
                if j == room.len() {
                    assert(bare.contains(room[i]));
                    let q = choose|q: int| 0 <= q < bare.len() && bare[q] == room[i];
                    assert(bare[q].key.key() != k);
                } else {
                    assert(room[i].key.key() != room[j].key.key());
                }
            }
        }
    }
}

/// What was put is found while it is good, and not after.
pub proof fn put_is_found<K: CacheKey, V>(
    before: TtlCache<K, V>,
    after: TtlCache<K, V>,
    key: K,
    value: V,
    now: u64,
    later: u64,
)
    requires
        before.wf(),
        before.ttl_secs > 0,
        before.max > 0,
        after.wf(),
        after.entries@ == before.entries_with(key, value, now),
        after.ttl_secs == before.ttl_secs,
    ensures
        after.value(key.key(), later) == if later - now < before.ttl_secs {
            Some(value)
        } else {
            None
        },
{
    let last = after.entries@.len() - 1;
    assert(after.entries@[last].key.key() == key.key());
    lemma_entry_at(after.entries@, key.key(), 0);
    let p = entry_at(after.entries@, key.key(), 0)->0;
    if p != last {
        assert(after.entries@[p].key.key() != after.entries@[last].key.key());
    }
}

/// What is put for one key changes nothing for another, but that it may leave a
/// full cache.
pub proof fn put_keeps_the_others<K: CacheKey, V>(
    before: TtlCache<K, V>,
    after: TtlCache<K, V>,
    key: K,
    value: V,
    now: u64,
    other: K::Key,
    later: u64,
)
    requires
        before.wf(),
        after.wf(),
        after.entries@ == before.entries_with(key, value, now),
        after.ttl_secs == before.ttl_secs,
        after.max == before.max,
        other != key.key(),
    ensures
        after.value(other, later) is Some ==> after.value(other, later) == before.value(other, later),
        before.entries@.len() < before.max ==> after.value(other, later) == before.value(
            other,
            later,
        ),
{
    let a = before.entries@;
    let b = after.entries@;
    lemma_entry_at(a, other, 0);
    lemma_entry_at(b, other, 0);
    if before.ttl_secs > 0 && before.max > 0 {
        let bare = without_key(a, key.key(), a.len() as int);
        let room = with_room(bare, now, before.ttl_secs, before.max);
        lemma_without_key(a, key.key(), a.len() as int);
        lemma_with_room(bare, now, before.ttl_secs, before.max);
        assert(a.take(a.len() as int) =~= a);
        if let Some(p) = entry_at(b, other, 0) {
            assert(p < room.len());
            assert(b[p] == room[p]);
            assert(bare.contains(room[p]));
            let q = choose|q: int| 0 <= q < bare.len() && bare[q] == room[p];
            assert(a.contains(bare[q]));
            let s = choose|s: int| 0 <= s < a.len() && a[s] == bare[q];
            let t = entry_at(a, other, 0)->0;
            if s != t {
                assert(a[s].key.key() != a[t].key.key());
            }
        } else if before.entries@.len() < before.max {
            if let Some(t) = entry_at(a, other, 0) {
                assert(a[t].key.key() != key.key());
                assert(bare.contains(a[t]));
                let q = choose|q: int| 0 <= q < bare.len() && bare[q] == a[t];
                assert(room == bare);
                assert(b[q] == bare[q]);
            }
        }
    }
}

/// What was taken out is not found.
pub proof fn removed_is_not_found<K: CacheKey, V>(
    before: TtlCache<K, V>,
    after: TtlCache<K, V>,
    key: K::Key,
    now: u64,
)
    requires
        before.wf(),
        after.entries@ == without_key(before.entries@, key, before.entries@.len() as int),
    ensures
        after.value(key, now) is None,
{
    lemma_without_key(before.entries@, key, before.entries@.len() as int);
    lemma_entry_at(after.entries@, key, 0);
}

/// What is found is an entry.
pub proof fn lemma_entry_found<K: CacheKey, V>(entries: Seq<CacheEntry<K, V>>, key: K::Key)
    ensures
        entry_at(entries, key, 0) matches Some(p) ==> 0 <= p < entries.len()
            && entries[p].key.key() == key,
{
    lemma_entry_at(entries, key, 0);
}

/// After a value was put, every entry is the new one or was there.
pub proof fn lemma_put_entries<K: CacheKey, V>(before: TtlCache<K, V>, key: K, value: V, now: u64)
    requires
        before.wf(),
    ensures
        forall|i: int|
            0 <= i < before.entries_with(key, value, now).len() ==> {
                let e = #[trigger] before.entries_with(key, value, now)[i];
                e == (CacheEntry { key, value, at: now }) || before.entries@.contains(e)
            },
{
    let a = before.entries@;
    if before.ttl_secs > 0 && before.max > 0 {
        let bare = without_key(a, key.key(), a.len() as int);
        let room = with_room(bare, now, before.ttl_secs, before.max);
        lemma_without_key(a, key.key(), a.len() as int);
        lemma_with_room(bare, now, before.ttl_secs, before.max);
        assert(a.take(a.len() as int) =~= a);
        assert forall|i: int| 0 <= i < room.len() implies a.contains(#[trigger] room[i]) by {
            assert(bare.contains(room[i]));
            let q = choose|q: int| 0 <= q < bare.len() && bare[q] == room[i];
            assert(a.contains(bare[q]));
        }
    }
}

/// A value is good for so many seconds from when it was put, and never where that is
/// none.
pub proof fn values_are_good_for_their_time(at: u64, now: u64, ttl: u64)
    ensures
        ttl > 0 ==> (is_fresh(at, now, ttl) <==> now < at + ttl),
        !is_fresh(at, now, 0),
{
}

proof fn lemma_fresh_is_filter<K, V>(entries: Seq<CacheEntry<K, V>>, now: u64, ttl: u64, n: int)
    requires
        ttl > 0,
        0 <= n <= entries.len(),
    ensures
        fresh_only(entries, now, ttl, n) == entries.take(n).filter(
            |e: CacheEntry<K, V>| now < e.at + ttl,
        ),
    decreases n,
{
    reveal(Seq::filter);
    if n > 0 {
        lemma_fresh_is_filter(entries, now, ttl, n - 1);
        assert(entries.take(n).drop_last() =~= entries.take(n - 1));
        assert(entries.take(n).last() == entries[n - 1]);
    }
}

/// Room for one more entry is made only in a full cache: those that are good no longer
/// leave, and the one that was put first leaves where all are good.
pub proof fn full_caches_make_room<K, V>(
    entries: Seq<CacheEntry<K, V>>,
    now: u64,
    ttl: u64,
    max: usize,
)
    requires
        ttl > 0,
        max > 0,
        entries.len() <= max,
    ensures
        entries.len() < max ==> with_room(entries, now, ttl, max) == entries,
        entries.len() == max && (exists|i: int|
            0 <= i < entries.len() && now >= (#[trigger] entries[i]).at + ttl) ==> with_room(
            entries,
            now,
            ttl,
            max,
        ) == entries.filter(|e: CacheEntry<K, V>| now < e.at + ttl),
        entries.len() == max && (forall|i: int|
            0 <= i < entries.len() ==> now < (#[trigger] entries[i]).at + ttl) ==> with_room(
            entries,
            now,
            ttl,
            max,
        ) == entries.skip(1),
{
    let n = entries.len() as int;
    let good = |e: CacheEntry<K, V>| now < e.at + ttl;
    lemma_fresh_is_filter(entries, now, ttl, n);
    assert(entries.take(n) =~= entries);
    lemma_filter_counts(entries, good);
}

proof fn lemma_filter_counts<A>(s: Seq<A>, pred: spec_fn(A) -> bool)
    ensures
        s.filter(pred).len() <= s.len(),
        (exists|i: int| 0 <= i < s.len() && !pred(#[trigger] s[i])) ==> s.filter(pred).len()
            < s.len(),
        (forall|i: int| 0 <= i < s.len() ==> pred(#[trigger] s[i])) ==> s.filter(pred) == s,
    decreases s.len(),
{
    reveal(Seq::filter);
    if s.len() > 0 {
        let front = s.drop_last();
        lemma_filter_counts(front, pred);
        assert(s =~= front.push(s.last()));
        if exists|i: int| 0 <= i < s.len() && !pred(#[trigger] s[i]) {
            let i = choose|i: int| 0 <= i < s.len() && !pred(#[trigger] s[i]);
            if i < s.len() - 1 {
                assert(!pred(front[i]));
            } else {
                assert(!pred(s.last()));
            }
        }
        if forall|i: int| 0 <= i < s.len() ==> pred(#[trigger] s[i]) {
            assert(pred(s[s.len() - 1]));
            assert forall|i: int| 0 <= i < front.len() implies pred(#[trigger] front[i]) by {
                assert(front[i] == s[i]);
            }
        }
    }
}

} // verus!
