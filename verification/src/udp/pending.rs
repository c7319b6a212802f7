//! Datagrams that wait until the host they are for is known.
//!
//! The first datagram of a connection may not be enough to find the host. It then
//! waits, and so do those that follow, until the host is found, there is none to
//! be found, or the time is up.

use crate::cli::QuicSniffMode;
use crate::sniff::quic;
use crate::sniff::quic::QuicSniUdpSnifferSession;
use crate::sniff::udp::{
    Outcome, UdpSniffError, UdpSniffOutcome, UdpSnifferEngine, UdpSnifferSessionEngine,
};
use crate::state::AppState;
use crate::udp::session;
use crate::udp::session::{
    key_code, AddrCode, KeyCode, SpecView, UdpRoutingMode, UdpSessionKey, UdpSessionSpec,
};
use dashmap::DashMap;
use std::hash::RandomState;
use vstd::prelude::*;

verus! {

/// After so many datagrams that are of no use, the search is given up.
pub const UDP_SNIFF_NO_CLUE_LIMIT: usize = 2;

/// How many datagrams of a session may wait.
pub const UDP_SNIFF_MAX_CACHED_DATAGRAMS: usize = 8;

/// How many bytes of a session may wait.
pub const UDP_SNIFF_MAX_CACHED_BYTES: usize = 65536;

/// How many sessions may wait.
pub const UDP_SNIFF_MAX_PENDING_SESSIONS: usize = 4096;

/// How often to look for sessions whose time is up, in milliseconds.
pub const UDP_SNIFF_REAP_INTERVAL_MS: u64 = 100;

/// The same where no session waits.
pub const UDP_SNIFF_REAP_IDLE_INTERVAL_MS: u64 = 1000;

// ---------------------------------------------------------------------------
// Datagrams of one session
// ---------------------------------------------------------------------------

/// The views of a list of datagrams.
pub open spec fn datagrams(v: Seq<Vec<u8>>) -> Seq<Seq<u8>> {
    v.map_values(|d: Vec<u8>| d@)
}

/// How many bytes a list of datagrams has.
pub open spec fn total_bytes(v: Seq<Seq<u8>>) -> int
    decreases v.len(),
{
    if v.len() == 0 {
        0
    } else {
        total_bytes(v.drop_last()) + v.last().len()
    }
}

/// One more datagram still fits.
pub open spec fn has_room(v: Seq<Seq<u8>>, payload: Seq<u8>) -> bool {
    v.len() < UDP_SNIFF_MAX_CACHED_DATAGRAMS && total_bytes(v) + payload.len()
        <= UDP_SNIFF_MAX_CACHED_BYTES
}

/// The datagrams of a session that wait, in order.
pub struct PendingReplayBuffer {
    pub datagrams: Vec<Vec<u8>>,
    pub cached_bytes: usize,
}

impl View for PendingReplayBuffer {
    type V = Seq<Seq<u8>>;

    open spec fn view(&self) -> Seq<Seq<u8>> {
        datagrams(self.datagrams@)
    }
}

fn copy_bytes(s: &[u8]) -> (r: Vec<u8>)
    ensures
        r@ == s@,
{
    let mut r: Vec<u8> = Vec::new();
    crate::bytes::append_all(&mut r, s);
    assert(r@ =~= s@);
    r
}

impl PendingReplayBuffer {
    /// The bytes are counted.
    pub open spec fn wf(self) -> bool {
        self.cached_bytes == total_bytes(self@)
    }

    /// A buffer with one datagram, of whatever size.
    pub fn new(first_payload: &[u8]) -> (r: Self)
        ensures
            r@ == seq![first_payload@],
            r.wf(),
    {
        let r = PendingReplayBuffer {
            datagrams: vec![copy_bytes(first_payload)],
            cached_bytes: first_payload.len(),
        };
        proof {
            assert(r@ =~= seq![first_payload@]);
            assert(r@.drop_last() =~= Seq::empty());
            assert(total_bytes(r@.drop_last()) == 0);
        }
        r
    }

    /// Adds a datagram, if it fits.
    pub fn push_datagram(&mut self, payload: &[u8]) -> (r: bool)
        requires
            old(self).wf(),
        ensures
            final(self).wf(),
            r == has_room(old(self)@, payload@),
            final(self)@ == if r {
                old(self)@.push(payload@)
            } else {
                old(self)@
            },
    {
        let next_bytes = self.cached_bytes.saturating_add(payload.len());
        if self.datagrams.len() >= UDP_SNIFF_MAX_CACHED_DATAGRAMS || next_bytes
            > UDP_SNIFF_MAX_CACHED_BYTES {
            return false;
        }
        let ghost before = self@;
        self.datagrams.push(copy_bytes(payload));
        self.cached_bytes = next_bytes;
        proof {
            assert(self@ =~= before.push(payload@));
            assert(self@.drop_last() =~= before);
        }
        true
    }

    /// The datagrams, in order.
    pub fn into_datagrams(self) -> (r: Vec<Vec<u8>>)
        ensures
            datagrams(r@) == self@,
    {
        self.datagrams
    }

    pub fn datagram_count(&self) -> (r: usize)
        ensures
            r == self@.len(),
    {
        self.datagrams.len()
    }

    pub fn cached_bytes(&self) -> (r: usize)
        requires
            self.wf(),
        ensures
            r == total_bytes(self@),
    {
        self.cached_bytes
    }
}

/// A session whose host is looked for.
pub struct PendingUdpSniff {
    /// When the time is up, in milliseconds.
    pub deadline_ms: u64,
    pub no_clue_attempts: usize,
    pub spec: UdpSessionSpec,
    pub sniffer: QuicSniUdpSnifferSession,
    pub replay: PendingReplayBuffer,
}

/// The time that is so much later.
pub open spec fn later(now_ms: u64, by_ms: u64) -> u64 {
    if now_ms + by_ms <= u64::MAX {
        (now_ms + by_ms) as u64
    } else {
        u64::MAX
    }
}

impl PendingUdpSniff {
    pub open spec fn wf(self) -> bool {
        &&& self.replay.wf()
        &&& self.sniffer.valid()
        &&& self.no_clue_attempts < UDP_SNIFF_NO_CLUE_LIMIT
    }

    /// A session that waits from `now_ms` on.
    pub fn new(
        spec: UdpSessionSpec,
        sniffer: QuicSniUdpSnifferSession,
        first_payload: &[u8],
        pending_timeout_ms: u64,
        now_ms: u64,
    ) -> (r: Self)
        requires
            sniffer.valid(),
        ensures
            r.wf(),
            r.deadline_ms == later(now_ms, pending_timeout_ms),
            r.no_clue_attempts == 0,
            r.spec == spec,
            r.sniffer == sniffer,
            r.replay@ == seq![first_payload@],
    {
        PendingUdpSniff {
            deadline_ms: now_ms.saturating_add(pending_timeout_ms),
            no_clue_attempts: 0,
            spec,
            sniffer,
            replay: PendingReplayBuffer::new(first_payload),
        }
    }

    /// Adds a datagram, if it fits.
    pub fn push_datagram(&mut self, payload: &[u8]) -> (r: bool)
        requires
            old(self).replay.wf(),
        ensures
            final(self).replay.wf(),
            r == has_room(old(self).replay@, payload@),
            final(self).replay@ == if r {
                old(self).replay@.push(payload@)
            } else {
                old(self).replay@
            },
            *final(self) == (PendingUdpSniff { replay: final(self).replay, ..*old(self) }),
    {
        self.replay.push_datagram(payload)
    }

    /// Whether the time is up.
    pub fn expired(&self, now_ms: u64) -> (r: bool)
        ensures
            r == (now_ms >= self.deadline_ms),
    {
        now_ms >= self.deadline_ms
    }

    /// Counts a datagram that was of no use, and says whether to give up.
    pub fn record_no_clue(&mut self) -> (r: bool)
        requires
            old(self).no_clue_attempts < usize::MAX,
        ensures
            *final(self) == (PendingUdpSniff {
                no_clue_attempts: (old(self).no_clue_attempts + 1) as usize,
                ..*old(self)
            }),
            r == (old(self).no_clue_attempts + 1 >= UDP_SNIFF_NO_CLUE_LIMIT),
    {
        self.no_clue_attempts = self.no_clue_attempts + 1;
        self.no_clue_attempts >= UDP_SNIFF_NO_CLUE_LIMIT
    }

    pub fn datagram_count(&self) -> (r: usize)
        ensures
            r == self.replay@.len(),
    {
        self.replay.datagram_count()
    }

    pub fn cached_bytes(&self) -> (r: usize)
        requires
            self.replay.wf(),
        ensures
            r == total_bytes(self.replay@),
    {
        self.replay.cached_bytes()
    }
}

/// Datagrams to send in a session, which is made if there is none.
pub struct Delivery {
    pub spec: UdpSessionSpec,
    pub datagrams: Vec<Vec<u8>>,
}

/// The view of [`Delivery`].
pub struct DeliveryView {
    pub spec: SpecView,
    pub datagrams: Seq<Seq<u8>>,
}

impl View for Delivery {
    type V = DeliveryView;

    open spec fn view(&self) -> DeliveryView {
        DeliveryView { spec: self.spec@, datagrams: datagrams(self.datagrams@) }
    }
}

/// The views of a list of deliveries.
pub open spec fn deliveries(v: Seq<Delivery>) -> Seq<DeliveryView> {
    v.map_values(|d: Delivery| d@)
}

/// What a session that waited is sent as.
pub open spec fn flushed(p: PendingUdpSniff) -> DeliveryView {
    DeliveryView { spec: p.spec@, datagrams: p.replay@ }
}

/// Takes what a session has waiting.
pub fn flush_pending_udp_sniff(pending: PendingUdpSniff) -> (r: Delivery)
    ensures
        r@ == flushed(pending),
{
    Delivery { spec: pending.spec, datagrams: pending.replay.into_datagrams() }
}

fn single(spec: UdpSessionSpec, payload: &[u8]) -> (r: Delivery)
    ensures
        r@ == (DeliveryView { spec: spec@, datagrams: seq![payload@] }),
{
    let r = Delivery { spec, datagrams: vec![copy_bytes(payload)] };
    assert(r@.datagrams =~= seq![payload@]);
    r
}

// ---------------------------------------------------------------------------
// All sessions that wait
// ---------------------------------------------------------------------------

/// `dashmap::DashMap`, a map.
#[verifier::external_type_specification]
#[verifier::external_body]
#[verifier::reject_recursive_types(K)]
#[verifier::reject_recursive_types(V)]
#[verifier::reject_recursive_types(S)]
pub struct ExDashMap<K, V, S>(dashmap::DashMap<K, V, S>);

/// The sessions in a map, by their keys.
pub uninterp spec fn pending_in(m: DashMap<KeyCode, PendingUdpSniff, RandomState>) -> Map<
    KeyCode,
    PendingUdpSniff,
>;

/// The map of no sessions.
pub open spec fn no_sessions() -> Map<KeyCode, PendingUdpSniff> {
    Map::empty()
}

/// `dashmap::DashMap::new`: an empty map.
#[verifier::external_body]
fn new_map() -> (r: DashMap<KeyCode, PendingUdpSniff, RandomState>)
    ensures
        pending_in(r) == no_sessions(),
{
    DashMap::new()
}

/// `dashmap::DashMap::insert`: the value stands for the key, in place of what was
/// there.
#[verifier::external_body]
fn insert_in(
    m: &mut DashMap<KeyCode, PendingUdpSniff, RandomState>,
    key: KeyCode,
    value: PendingUdpSniff,
)
    ensures
        pending_in(*final(m)) == pending_in(*old(m)).insert(key, value),
{
    m.insert(key, value);
}

/// `dashmap::DashMap::remove`: takes out the value for a key, if there is one.
#[verifier::external_body]
fn remove_from(m: &mut DashMap<KeyCode, PendingUdpSniff, RandomState>, key: KeyCode) -> (r: Option<
    PendingUdpSniff,
>)
    ensures
        pending_in(*final(m)) == pending_in(*old(m)).remove(key),
        r == if pending_in(*old(m)).dom().contains(key) {
            Some(pending_in(*old(m))[key])
        } else {
            None
        },
{
    m.remove(&key).map(|e| e.1)
}

/// A list has each key of a map once, with its deadline.
pub open spec fn lists_deadlines(m: Map<KeyCode, PendingUdpSniff>, list: Seq<(KeyCode, u64)>) -> bool {
    &&& forall|i: int|
        0 <= i < list.len() ==> m.dom().contains((#[trigger] list[i]).0) && list[i].1
            == m[list[i].0].deadline_ms
    &&& forall|k: KeyCode| #[trigger]
        m.dom().contains(k) ==> exists|i: int| 0 <= i < list.len() && (#[trigger] list[i]).0 == k
    &&& forall|i: int, j: int|
        #![trigger list[i], list[j]]
        0 <= i < j < list.len() ==> list[i].0 != list[j].0
}

/// `dashmap::DashMap::iter`: comes by each entry once, in some order.
#[verifier::external_body]
fn deadlines_in(m: &DashMap<KeyCode, PendingUdpSniff, RandomState>) -> (r: Vec<(KeyCode, u64)>)
    ensures
        lists_deadlines(pending_in(*m), r@),
{
    m.iter().map(|e| (*e.key(), e.value().deadline_ms)).collect()
}

/// The sessions that wait, by their keys.
pub struct PendingSniffMap {
    pub map: DashMap<KeyCode, PendingUdpSniff, RandomState>,
}

impl View for PendingSniffMap {
    type V = Map<KeyCode, PendingUdpSniff>;

    open spec fn view(&self) -> Map<KeyCode, PendingUdpSniff> {
        pending_in(self.map)
    }
}

/// Each session stands at its key.
pub open spec fn entries_wf(m: Map<KeyCode, PendingUdpSniff>) -> bool {
    &&& m.dom().finite()
    &&& forall|k: KeyCode| #[trigger]
        m.dom().contains(k) ==> m[k].wf() && session::key_code_of(m[k].spec.key) == k
}

/// Sessions were taken out one after another, each the one whose time is up first
/// of those that were left.
pub open spec fn oldest_taken(
    before: Map<KeyCode, PendingUdpSniff>,
    after: Map<KeyCode, PendingUdpSniff>,
    keys: Seq<KeyCode>,
) -> bool
    decreases keys.len(),
{
    if keys.len() == 0 {
        after == before
    } else {
        &&& before.dom().contains(keys[0])
        &&& forall|k: KeyCode| #[trigger]
            before.dom().contains(k) ==> before[keys[0]].deadline_ms <= before[k].deadline_ms
        &&& oldest_taken(before.remove(keys[0]), after, keys.drop_first())
    }
}

/// What sessions that were taken out are sent as.
pub open spec fn flushed_keys(m: Map<KeyCode, PendingUdpSniff>, keys: Seq<KeyCode>) -> Seq<
    DeliveryView,
> {
    keys.map_values(|k: KeyCode| flushed(m[k]))
}

impl PendingSniffMap {
    /// No more sessions wait than may.
    pub open spec fn wf(self) -> bool {
        entries_wf(self@) && self@.dom().len() <= UDP_SNIFF_MAX_PENDING_SESSIONS
    }

    /// The session of a key that waits.
    pub open spec fn at(self, key: UdpSessionKey) -> Option<PendingUdpSniff> {
        if self@.dom().contains(session::key_code_of(key)) {
            Some(self@[session::key_code_of(key)])
        } else {
            None
        }
    }

    /// No session waits.
    pub fn new() -> (r: Self)
        ensures
            r@ == no_sessions(),
            r.wf(),
    {
        PendingSniffMap { map: new_map() }
    }

    /// Lets a session wait.
    pub fn insert(&mut self, pending: PendingUdpSniff)
        ensures
            final(self)@ == old(self)@.insert(session::key_code_of(pending.spec.key), pending),
    {
        let key = key_code(pending.spec.key);
        insert_in(&mut self.map, key, pending);
    }

    /// Takes out the session of a key.
    pub fn remove(&mut self, key: UdpSessionKey) -> (r: Option<PendingUdpSniff>)
        ensures
            final(self)@ == old(self)@.remove(session::key_code_of(key)),
            r == old(self).at(key),
    {
        remove_from(&mut self.map, key_code(key))
    }

    /// How many sessions wait.
    pub fn len(&self) -> (r: usize)
        requires
            self@.dom().finite(),
        ensures
            r == self@.dom().len(),
    {
        let list = deadlines_in(&self.map);
        proof {
            lemma_list_len(self@, list@);
        }
        list.len()
    }

    /// Whether the session of a key waits.
    pub fn contains_key(&self, key: UdpSessionKey) -> (r: bool)
        ensures
            r == self.at(key) is Some,
    {
        let code = key_code(key);
        let list = deadlines_in(&self.map);
        let mut i: usize = 0;
        while i < list.len()
            invariant
                i <= list@.len(),
                code == session::key_code_of(key),
                lists_deadlines(self@, list@),
                forall|k: int| 0 <= k < i ==> (#[trigger] list@[k]).0 != code,
            decreases list@.len() - i,
        {
            if same_code(list[i].0, code) {
                return true;
            }
            i += 1;
        }
        false
    }
}

fn same_addr_code(a: AddrCode, b: AddrCode) -> (r: bool)
    ensures
        r == (a == b),
{
    a.0 == b.0 && a.1 == b.1 && a.2 == b.2 && a.3 == b.3 && a.4 == b.4
}

fn same_code(a: KeyCode, b: KeyCode) -> (r: bool)
    ensures
        r == (a == b),
{
    let kinds = match (a.0, b.0) {
        (Some(x), Some(y)) => same_addr_code(x, y),
        (None, None) => true,
        _ => false,
    };
    kinds && same_addr_code(a.1, b.1) && same_addr_code(a.2, b.2)
}

proof fn lemma_list_len(m: Map<KeyCode, PendingUdpSniff>, list: Seq<(KeyCode, u64)>)
    requires
        m.dom().finite(),
        lists_deadlines(m, list),
    ensures
        list.len() == m.dom().len(),
{
    let keys = list.map_values(|e: (KeyCode, u64)| e.0);
    assert(keys.no_duplicates()) by {
        assert forall|i: int, j: int|
            0 <= i < keys.len() && 0 <= j < keys.len() && i != j implies keys[i] != keys[j] by {
            if i < j {
                assert(list[i].0 != list[j].0);
            } else {
                assert(list[j].0 != list[i].0);
            }
        }
    }
    assert(keys.to_set() =~= m.dom()) by {
        assert forall|k: KeyCode| keys.to_set().contains(k) <==> m.dom().contains(k) by {
            if keys.contains(k) {
                let i = choose|i: int| 0 <= i < keys.len() && keys[i] == k;
                assert(m.dom().contains(list[i].0));
            }
            if m.dom().contains(k) {
                let i = choose|i: int| 0 <= i < list.len() && (#[trigger] list[i]).0 == k;
                assert(keys[i] == k);
            }
        }
    }
    keys.unique_seq_to_set();
}

/// Takes out sessions, those first whose time is up first, until no more wait
/// than may. They are sent without a host.
pub fn enforce_pending_udp_sniff_capacity(pending: &mut PendingSniffMap) -> (r: Vec<Delivery>)
    requires
        entries_wf(old(pending)@),
    ensures
        final(pending).wf(),
        exists|keys: Seq<KeyCode>| {
            &&& #[trigger] oldest_taken(old(pending)@, final(pending)@, keys)
            &&& deliveries(r@) == flushed_keys(old(pending)@, keys)
            &&& old(pending)@.dom().len() == final(pending)@.dom().len() + keys.len()
            &&& keys.len() > 0 ==> final(pending)@.dom().len() == UDP_SNIFF_MAX_PENDING_SESSIONS
        },
{
    let mut out: Vec<Delivery> = Vec::new();
    let ghost start = pending@;
    let ghost mut keys: Seq<KeyCode> = Seq::empty();
    assert(deliveries(out@) =~= flushed_keys(start, keys));
    let mut count = pending.len();
    while count > UDP_SNIFF_MAX_PENDING_SESSIONS
        invariant
            entries_wf(pending@),
            count == pending@.dom().len(),
            oldest_taken(start, pending@, keys),
            deliveries(out@) == flushed_keys(start, keys),
            start.dom().len() == count + keys.len(),
            keys.len() > 0 ==> count >= UDP_SNIFF_MAX_PENDING_SESSIONS,
        decreases count,
    {
        let list = deadlines_in(&pending.map);
        proof {
            lemma_list_len(pending@, list@);
        }
        let mut best: usize = 0;
        let mut i: usize = 1;
        while i < list.len()
            invariant
                1 <= i <= list@.len(),
                best < list@.len(),
                forall|k: int| 0 <= k < i ==> list@[best as int].1 <= (#[trigger] list@[k]).1,
            decreases list@.len() - i,
        {
            if list[i].1 < list[best].1 {
                best = i;
            }
            i += 1;
        }
        let key = list[best].0;
        let ghost before = pending@;
        proof {
            assert forall|k: KeyCode| #[trigger] before.dom().contains(k) implies before[key].deadline_ms
                <= before[k].deadline_ms by {
                let j = choose|j: int| 0 <= j < list@.len() && (#[trigger] list@[j]).0 == k;
                assert(list@[best as int].1 <= list@[j].1);
            }
        }
        match remove_from(&mut pending.map, key) {
            Some(p) => {
                let ghost old_out = out@;
                let ghost old_keys = keys;
                out.push(flush_pending_udp_sniff(p));
                proof {
                    keys = keys.push(key);
                    lemma_oldest_push(start, before, old_keys, key);
                    lemma_taken_values(start, before, old_keys, key);
                    assert(deliveries(out@) =~= deliveries(old_out).push(flushed(p)));
                    assert(flushed_keys(start, keys) =~= flushed_keys(start, old_keys).push(
                        flushed(start[key]),
                    ));
                }
            },
            None => {},
        }
        count = count - 1;
    }
    out
}

proof fn lemma_oldest_push(
    start: Map<KeyCode, PendingUdpSniff>,
    before: Map<KeyCode, PendingUdpSniff>,
    keys: Seq<KeyCode>,
    key: KeyCode,
)
    requires
        oldest_taken(start, before, keys),
        before.dom().contains(key),
        forall|k: KeyCode| #[trigger]
            before.dom().contains(k) ==> before[key].deadline_ms <= before[k].deadline_ms,
    ensures
        oldest_taken(start, before.remove(key), keys.push(key)),
    decreases keys.len(),
{
    let more = keys.push(key);
    if keys.len() == 0 {
        assert(more.drop_first() =~= Seq::empty());
        assert(oldest_taken(before.remove(key), before.remove(key), more.drop_first()));
    } else {
        assert(more.drop_first() =~= keys.drop_first().push(key));
        assert(more[0] == keys[0]);
        lemma_oldest_push(start.remove(keys[0]), before, keys.drop_first(), key);
    }
}

pub proof fn lemma_taken_values(
    start: Map<KeyCode, PendingUdpSniff>,
    before: Map<KeyCode, PendingUdpSniff>,
    keys: Seq<KeyCode>,
    key: KeyCode,
)
    requires
        oldest_taken(start, before, keys),
        before.dom().contains(key),
    ensures
        start.dom().contains(key),
        start[key] == before[key],
    decreases keys.len(),
{
    if keys.len() > 0 {
        lemma_taken_values(start.remove(keys[0]), before, keys.drop_first(), key);
    }
}

// ---------------------------------------------------------------------------
// Datagrams
// ---------------------------------------------------------------------------

/// What a datagram of a session that waits leads to.
pub enum PendingStep {
    /// The session waits no longer. This is sent, in order.
    Send(Seq<DeliveryView>),
    /// The session waits on, with the datagram.
    Wait,
}

/// A session with a host.
pub open spec fn with_host(spec: SpecView, host: Seq<char>) -> SpecView {
    SpecView { host: Some(host), ..spec }
}

/// A datagram of its own.
pub open spec fn alone(spec: SpecView, payload: Seq<u8>) -> DeliveryView {
    DeliveryView { spec, datagrams: seq![payload] }
}

/// All that waited, and a datagram behind it.
pub open spec fn all_of(spec: SpecView, p: PendingUdpSniff, payload: Seq<u8>) -> DeliveryView {
    DeliveryView { spec, datagrams: p.replay@.push(payload) }
}

/// What a datagram of a session that waits leads to. When the time is up or there
/// is no more room, all is sent without a host; when the host is found, all is
/// sent with it.
pub open spec fn pending_step(
    p: PendingUdpSniff,
    spec: SpecView,
    payload: Seq<u8>,
    now_ms: u64,
) -> PendingStep {
    if now_ms >= p.deadline_ms || !has_room(p.replay@, payload) {
        PendingStep::Send(seq![flushed(p), alone(spec, payload)])
    } else {
        match p.sniffer.outcome_of(payload) {
            Outcome::Matched { protocol: _, host } => PendingStep::Send(
                seq![all_of(with_host(p.spec@, host), p, payload)],
            ),
            Outcome::NeedMore { protocol: _ } => PendingStep::Wait,
            Outcome::NotMatched => if p.no_clue_attempts + 1 >= UDP_SNIFF_NO_CLUE_LIMIT {
                PendingStep::Send(seq![all_of(p.spec@, p, payload)])
            } else {
                PendingStep::Wait
            },
            Outcome::Failed { protocol: _, error: _ } => PendingStep::Send(
                seq![all_of(p.spec@, p, payload)],
            ),
        }
    }
}

/// A session that waits on, with a datagram more.
pub open spec fn waits_on(p: PendingUdpSniff, payload: Seq<u8>, after: PendingUdpSniff) -> bool {
    &&& after.deadline_ms == p.deadline_ms
    &&& after.spec@ == p.spec@
    &&& after.replay@ == p.replay@.push(payload)
    &&& after.sniffer@ == quic::run_datagram(payload, p.sniffer@).0
    &&& after.no_clue_attempts == p.no_clue_attempts + (if p.sniffer.outcome_of(
        payload,
    ) is NotMatched {
        1int
    } else {
        0
    })
}

/// Whatever is sent when a session waits no longer is all that waited and the
/// datagram that came last, each once and in the order in which they came.
pub proof fn nothing_is_lost_while_waiting(
    p: PendingUdpSniff,
    spec: SpecView,
    payload: Seq<u8>,
    now_ms: u64,
)
    ensures
        pending_step(p, spec, payload, now_ms) matches PendingStep::Send(out) ==> sent_in_order(out)
            == p.replay@.push(payload),
{
    if let PendingStep::Send(out) = pending_step(p, spec, payload, now_ms) {
        if out.len() == 1 {
            assert(out.drop_last() =~= Seq::empty());
            assert(sent_in_order(out.drop_last()) =~= Seq::empty());
            assert(sent_in_order(out) =~= p.replay@.push(payload));
        } else {
            let first = out.drop_last();
            assert(first =~= seq![flushed(p)]);
            assert(first.drop_last() =~= Seq::empty());
            assert(sent_in_order(first.drop_last()) =~= Seq::empty());
            assert(sent_in_order(first) =~= p.replay@);
            assert(sent_in_order(out) =~= p.replay@.push(payload));
        }
    }
}

/// The datagrams of a list of deliveries, in order.
pub open spec fn sent_in_order(out: Seq<DeliveryView>) -> Seq<Seq<u8>>
    decreases out.len(),
{
    if out.len() == 0 {
        Seq::empty()
    } else {
        sent_in_order(out.drop_last()) + out.last().datagrams
    }
}

/// Handles a datagram of a session that waits. Without such a session there is no
/// result.
pub fn handle_pending_udp_sniff(
    pending: &mut PendingSniffMap,
    spec: &UdpSessionSpec,
    payload: &[u8],
    now_ms: u64,
) -> (r: Option<Vec<Delivery>>)
    requires
        old(pending).wf(),
    ensures
        final(pending).wf(),
        match old(pending).at(spec.key) {
            None => r is None && final(pending)@ == old(pending)@,
            Some(p) => {
                &&& r matches Some(out)
                &&& match pending_step(p, spec@, payload@, now_ms) {
                    PendingStep::Send(v) => {
                        &&& deliveries(out@) == v
                        &&& final(pending)@ == old(pending)@.remove(session::key_code_of(spec.key))
                    },
                    PendingStep::Wait => {
                        &&& out@.len() == 0
                        &&& final(pending).at(spec.key) matches Some(after)
                        &&& waits_on(p, payload@, after)
                        &&& final(pending)@ == old(pending)@.insert(
                            session::key_code_of(spec.key),
                            after,
                        )
                    },
                }
            },
        },
{
    let ghost start = pending@;
    let ghost code = session::key_code_of(spec.key);
    let mut p = match pending.remove(spec.key) {
        Some(p) => p,
        None => {
            assert(start.remove(code) =~= start);
            return None;
        },
    };
    let ghost was = p;
    assert(start.dom().contains(code) && start[code] == was);
    let mut out: Vec<Delivery> = Vec::new();
    if p.expired(now_ms) || !p.push_datagram(payload) {
        out.push(flush_pending_udp_sniff(p));
        out.push(single(spec.copy(), payload));
        assert(deliveries(out@) =~= seq![flushed(was), alone(spec@, payload@)]);
        return Some(out);
    }
    match p.sniffer.feed(payload) {
        UdpSniffOutcome::Matched { protocol: _, host } => {
            let ghost name = host@;
            p.spec.sniffed_host = Some(host);
            out.push(flush_pending_udp_sniff(p));
            assert(deliveries(out@) =~= seq![all_of(with_host(was.spec@, name), was, payload@)]);
        },
        UdpSniffOutcome::NeedMore { protocol: _ } => {
            pending.insert(p);
            proof {
                assert(pending@ =~= start.insert(code, p));
            }
        },
        UdpSniffOutcome::NotMatched => {
            if p.record_no_clue() {
                out.push(flush_pending_udp_sniff(p));
                assert(deliveries(out@) =~= seq![all_of(was.spec@, was, payload@)]);
            } else {
                pending.insert(p);
                proof {
                    assert(pending@ =~= start.insert(code, p));
                }
            }
        },
        UdpSniffOutcome::Failed { protocol: _, error: _ } => {
            out.push(flush_pending_udp_sniff(p));
            assert(deliveries(out@) =~= seq![all_of(was.spec@, was, payload@)]);
        },
    }
    Some(out)
}

/// What the first datagram of a session leads to.
pub enum NewStep {
    /// The host is not looked for, or there is none.
    Pass,
    /// This is sent.
    Send(DeliveryView),
    /// The session waits, with the datagram.
    Wait,
}

/// What the first datagram of a session leads to. The host of a destination that
/// is reached directly is not looked for.
pub open spec fn new_step(s: AppState, spec: SpecView, payload: Seq<u8>) -> NewStep {
    if s.udp_sniffers@.len() == 0 || (spec.routing is Auto && s.goes_direct(
        spec.key.target_addr.spec_ip(),
        None,
    )) {
        NewStep::Pass
    } else {
        match quic::outcome_of_result(quic::run_datagram(payload, quic::CryptoStream::empty()).1) {
            Outcome::Matched { protocol: _, host } => NewStep::Send(
                alone(with_host(spec, host), payload),
            ),
            Outcome::NeedMore { protocol: _ } => if s.config.quic_sniff_mode is Full {
                NewStep::Wait
            } else {
                NewStep::Send(alone(spec, payload))
            },
            _ => NewStep::Pass,
        }
    }
}

/// A session that begins to wait.
pub open spec fn begins_to_wait(
    s: AppState,
    spec: SpecView,
    payload: Seq<u8>,
    now_ms: u64,
    p: PendingUdpSniff,
) -> bool {
    &&& p.deadline_ms == later(now_ms, s.config.quic_sniff_pending_timeout_ms)
    &&& p.no_clue_attempts == 0
    &&& p.spec@ == spec
    &&& p.replay@ == seq![payload]
    &&& p.sniffer@ == quic::run_datagram(payload, quic::CryptoStream::empty()).0
}

/// A session waits, and one that waited longer may have to go.
pub open spec fn room_was_made(
    before: Map<KeyCode, PendingUdpSniff>,
    after: Map<KeyCode, PendingUdpSniff>,
    p: PendingUdpSniff,
    out: Seq<DeliveryView>,
    keys: Seq<KeyCode>,
) -> bool {
    let full = before.insert(session::key_code_of(p.spec.key), p);
    &&& oldest_taken(full, after, keys)
    &&& out == flushed_keys(full, keys)
    &&& keys.len() <= 1
    &&& keys.len() == 1 <==> full.dom().len() > UDP_SNIFF_MAX_PENDING_SESSIONS
}

/// A session begins to wait among others.
pub open spec fn one_more_waits(
    s: AppState,
    spec: SpecView,
    payload: Seq<u8>,
    now_ms: u64,
    before: Map<KeyCode, PendingUdpSniff>,
    after: Map<KeyCode, PendingUdpSniff>,
    out: Seq<DeliveryView>,
) -> bool {
    exists|p: PendingUdpSniff, keys: Seq<KeyCode>| {
        &&& begins_to_wait(s, spec, payload, now_ms, p)
        &&& #[trigger] room_was_made(before, after, p, out, keys)
    }
}

/// The state after the first datagram of a session was looked at: it was asked
/// about the destination if hosts are looked for and the rules decide.
pub open spec fn looked_at(s: AppState, after: AppState, spec: SpecView) -> bool {
    if s.udp_sniffers@.len() > 0 && spec.routing is Auto {
        s.asked(after, spec.key.target_addr.spec_ip(), None)
    } else {
        after == s
    }
}

/// Handles the first datagram of a session. Where it gives no result, the
/// datagram is sent as it is.
pub fn handle_new_udp_sniff(
    state: &mut AppState,
    pending: &mut PendingSniffMap,
    spec: &UdpSessionSpec,
    payload: &[u8],
    now_ms: u64,
) -> (r: Option<Vec<Delivery>>)
    requires
        old(state).wf(),
        old(pending).wf(),
    ensures
        final(state).wf(),
        looked_at(*old(state), *final(state), spec@),
        final(state).route_cache.ttl_secs == old(state).route_cache.ttl_secs,
        final(state).route_cache.max == old(state).route_cache.max,
        *final(state) == (AppState { route_cache: final(state).route_cache, ..*old(state) }),
        final(pending).wf(),
        match new_step(*old(state), spec@, payload@) {
            NewStep::Pass => r is None && final(pending)@ == old(pending)@,
            NewStep::Send(d) => {
                &&& r matches Some(out)
                &&& deliveries(out@) == seq![d]
                &&& final(pending)@ == old(pending)@
            },
            NewStep::Wait => {
                &&& r matches Some(out)
                &&& one_more_waits(
                    *old(state),
                    spec@,
                    payload@,
                    now_ms,
                    old(pending)@,
                    final(pending)@,
                    deliveries(out@),
                )
            },
        },
{
    if state.udp_sniffers.len() == 0 {
        return None;
    }
    let target_ip_direct = match spec.routing {
        UdpRoutingMode::Auto => state.should_direct(spec.key.target_addr.ip(), None),
        UdpRoutingMode::ForceSocks5 => false,
    };
    if target_ip_direct {
        return None;
    }
    let ghost fresh = quic::CryptoStream::empty();
    let mut i: usize = 0;
    while i < state.udp_sniffers.len()
        invariant
            i <= state.udp_sniffers@.len(),
            state.wf(),
            looked_at(*old(state), *state, spec@),
            state.route_cache.ttl_secs == old(state).route_cache.ttl_secs,
            state.route_cache.max == old(state).route_cache.max,
            *state == (AppState { route_cache: state.route_cache, ..*old(state) }),
            pending.wf(),
            pending@ == old(pending)@,
            fresh == quic::CryptoStream::empty(),
            !(spec@.routing is Auto && old(state).goes_direct(
                spec@.key.target_addr.spec_ip(),
                None,
            )),
            i > 0 ==> new_step(*old(state), spec@, payload@) is Pass,
        decreases state.udp_sniffers@.len() - i,
    {
        let mut sniff_session = state.udp_sniffers[i].new_session();
        match sniff_session.feed(payload) {
            UdpSniffOutcome::Matched { protocol: _, host } => {
                let ghost name = host@;
                let mut found = spec.copy();
                found.sniffed_host = Some(host);
                let out = vec![single(found, payload)];
                assert(deliveries(out@) =~= seq![alone(with_host(spec@, name), payload@)]);
                return Some(out);
            },
            UdpSniffOutcome::NeedMore { protocol: _ } => {
                match state.config.quic_sniff_mode {
                    QuicSniffMode::Full => {
                        let p = PendingUdpSniff::new(
                            spec.copy(),
                            sniff_session,
                            payload,
                            state.config.quic_sniff_pending_timeout_ms,
                            now_ms,
                        );
                        let ghost q = p;
                        let ghost before = pending@;
                        pending.insert(p);
                        let ghost full = pending@;
                        let out = enforce_pending_udp_sniff_capacity(pending);
                        proof {
                            let keys = choose|keys: Seq<KeyCode>| {
                                &&& #[trigger] oldest_taken(full, pending@, keys)
                                &&& deliveries(out@) == flushed_keys(full, keys)
                                &&& full.dom().len() == pending@.dom().len() + keys.len()
                                &&& keys.len() > 0 ==> pending@.dom().len()
                                    == UDP_SNIFF_MAX_PENDING_SESSIONS
                            };
                            assert(full.dom().len() <= before.dom().len() + 1);
                            assert(q.sniffer@ == quic::run_datagram(payload@, fresh).0);
                            assert(begins_to_wait(*old(state), spec@, payload@, now_ms, q));
                            assert(before == old(pending)@);
                            assert(room_was_made(before, pending@, q, deliveries(out@), keys));
                        }
                        return Some(out);
                    },
                    QuicSniffMode::BestEffort | QuicSniffMode::Off => {
                        let out = vec![single(spec.copy(), payload)];
                        assert(deliveries(out@) =~= seq![alone(spec@, payload@)]);
                        return Some(out);
                    },
                }
            },
            UdpSniffOutcome::NotMatched => {},
            UdpSniffOutcome::Failed { protocol: _, error: _ } => {},
        }
        i += 1;
    }
    None
}

/// Sessions whose time is up were taken out.
pub open spec fn expired_taken(
    before: Map<KeyCode, PendingUdpSniff>,
    after: Map<KeyCode, PendingUdpSniff>,
    now_ms: u64,
    keys: Seq<KeyCode>,
) -> bool {
    &&& keys.no_duplicates()
    &&& forall|k: KeyCode| #[trigger]
        keys.contains(k) <==> (before.dom().contains(k) && now_ms >= before[k].deadline_ms)
    &&& after == before.remove_keys(keys.to_set())
}

/// Takes out the sessions whose time is up. They are sent without a host, in no
/// particular order.
pub fn reap_pending_udp_sniff(pending: &mut PendingSniffMap, now_ms: u64) -> (r: Vec<Delivery>)
    requires
        old(pending).wf(),
    ensures
        final(pending).wf(),
        exists|keys: Seq<KeyCode>| {
            &&& #[trigger] expired_taken(old(pending)@, final(pending)@, now_ms, keys)
            &&& deliveries(r@) == flushed_keys(old(pending)@, keys)
        },
{
    let ghost start = pending@;
    let ghost mut keys: Seq<KeyCode> = Seq::empty();
    let list = deadlines_in(&pending.map);
    let mut out: Vec<Delivery> = Vec::new();
    assert(deliveries(out@) =~= flushed_keys(start, keys));
    assert(pending@ =~= start.remove_keys(keys.to_set()));
    let mut i: usize = 0;
    while i < list.len()
        invariant
            i <= list@.len(),
            entries_wf(start),
            lists_deadlines(start, list@),
            keys.no_duplicates(),
            forall|k: KeyCode| #[trigger]
                keys.contains(k) <==> exists|j: int|
                    0 <= j < i && (#[trigger] list@[j]).0 == k && now_ms >= list@[j].1,
            pending@ == start.remove_keys(keys.to_set()),
            deliveries(out@) == flushed_keys(start, keys),
        decreases list@.len() - i,
    {
        let (key, deadline) = list[i];
        let ghost before = keys;
        if now_ms >= deadline {
            proof {
                if before.contains(key) {
                    let j = choose|j: int|
                        0 <= j < i && (#[trigger] list@[j]).0 == key && now_ms >= list@[j].1;
                    assert(list@[j].0 != list@[i as int].0);
                }
                assert(pending@.dom().contains(key));
            }
            match remove_from(&mut pending.map, key) {
                Some(p) => {
                    let ghost old_out = out@;
                    out.push(flush_pending_udp_sniff(p));
                    proof {
                        keys = keys.push(key);
                        assert(keys.to_set() =~= before.to_set().insert(key)) by {
                            lemma_push_set(before, key);
                        }
                        assert(pending@ =~= start.remove_keys(keys.to_set()));
                        assert(deliveries(out@) =~= deliveries(old_out).push(flushed(p)));
                        assert(flushed_keys(start, keys) =~= flushed_keys(start, before).push(
                            flushed(start[key]),
                        ));
                    }
                },
                None => {},
            }
        }
        proof {
            assert forall|k: KeyCode| #[trigger] keys.contains(k) <==> exists|j: int|
                0 <= j < i + 1 && (#[trigger] list@[j]).0 == k && now_ms >= list@[j].1 by {
                if now_ms >= deadline {
                    lemma_push_set(before, key);
                    assert(keys.contains(k) <==> before.contains(k) || k == key);
                    if k == key {
                        assert(list@[i as int].0 == k);
                    }
                }
                if before.contains(k) {
                    let j = choose|j: int|
                        0 <= j < i && (#[trigger] list@[j]).0 == k && now_ms >= list@[j].1;
                    assert(0 <= j < i + 1);
                }
            }
        }
        i += 1;
    }
    proof {
        assert(expired_taken(start, pending@, now_ms, keys)) by {
            assert forall|k: KeyCode| #[trigger] keys.contains(k) <==> (start.dom().contains(k)
                && now_ms >= start[k].deadline_ms) by {
                if keys.contains(k) {
                    let j = choose|j: int|
                        0 <= j < i && (#[trigger] list@[j]).0 == k && now_ms >= list@[j].1;
                    assert(start.dom().contains(list@[j].0));
                }
                if start.dom().contains(k) && now_ms >= start[k].deadline_ms {
                    let j = choose|j: int| 0 <= j < list@.len() && (#[trigger] list@[j]).0 == k;
                    assert(list@[j].1 == start[k].deadline_ms);
                }
            }
        }
        lemma_removed_is_small(start, keys.to_set());
        assert(pending.wf());
    }
    out
}

proof fn lemma_push_set(keys: Seq<KeyCode>, key: KeyCode)
    ensures
        keys.push(key).to_set() == keys.to_set().insert(key),
        forall|k: KeyCode| #[trigger]
            keys.push(key).contains(k) <==> (keys.contains(k) || k == key),
{
    let more = keys.push(key);
    assert forall|k: KeyCode| #[trigger] more.contains(k) <==> (keys.contains(k) || k == key) by {
        if more.contains(k) {
            let i = choose|i: int| 0 <= i < more.len() && more[i] == k;
            if i < keys.len() {
                assert(keys[i] == k);
            }
        }
        if keys.contains(k) {
            let i = choose|i: int| 0 <= i < keys.len() && keys[i] == k;
            assert(more[i] == k);
        }
        if k == key {
            assert(more[keys.len() as int] == k);
        }
    }
    assert(more.to_set() =~= keys.to_set().insert(key));
}

proof fn lemma_removed_is_small(m: Map<KeyCode, PendingUdpSniff>, keys: Set<KeyCode>)
    requires
        m.dom().finite(),
    ensures
        m.remove_keys(keys).dom().finite(),
        m.remove_keys(keys).dom().len() <= m.dom().len(),
{
    assert(m.remove_keys(keys).dom() =~= m.dom().difference(keys));
    vstd::set_lib::lemma_len_subset(m.dom().difference(keys), m.dom());
}

/// How often to look for sessions whose time is up.
pub open spec fn reap_interval(mode: QuicSniffMode) -> u64 {
    match mode {
        QuicSniffMode::Full => UDP_SNIFF_REAP_INTERVAL_MS,
        _ => UDP_SNIFF_REAP_IDLE_INTERVAL_MS,
    }
}

/// Whether it is time to look for sessions whose time is up: often where sessions
/// wait, once a second where none does.
pub fn reap_is_due(mode: QuicSniffMode, last_ms: u64, now_ms: u64) -> (r: bool)
    ensures
        r == (now_ms - last_ms >= reap_interval(mode)),
{
    let interval: u64 = match mode {
        QuicSniffMode::Full => UDP_SNIFF_REAP_INTERVAL_MS,
        QuicSniffMode::BestEffort | QuicSniffMode::Off => UDP_SNIFF_REAP_IDLE_INTERVAL_MS,
    };
    now_ms.saturating_sub(last_ms) >= interval
}

// ---------------------------------------------------------------------------
// Who waits, and for how long
// ---------------------------------------------------------------------------

/// The bytes of datagrams add up, and at most eight datagrams of at most 65536
/// bytes together wait.
pub proof fn few_datagrams_wait(a: Seq<Seq<u8>>, d: Seq<u8>, payload: Seq<u8>)
    ensures
        total_bytes(Seq::<Seq<u8>>::empty()) == 0,
        total_bytes(a.push(d)) == total_bytes(a) + d.len(),
        has_room(a, payload) <==> a.len() <= 7 && total_bytes(a) + payload.len() <= 65536,
{
    assert(a.push(d).drop_last() =~= a);
    assert(a.push(d).last() == d);
}

/// A datagram that comes when the time is up, or when there is no room for it, ends
/// the waiting at once: what waited goes first, as it is, and the datagram goes
/// behind it. Nobody looks for a host in it.
pub proof fn waiting_ends_in_time(p: PendingUdpSniff, spec: SpecView, payload: Seq<u8>, now_ms: u64)
    requires
        now_ms >= p.deadline_ms || p.replay@.len() >= 8 || total_bytes(p.replay@) + payload.len()
            > 65536,
    ensures
        pending_step(p, spec, payload, now_ms) == PendingStep::Send(
            seq![
                DeliveryView { spec: p.spec@, datagrams: p.replay@ },
                DeliveryView { spec, datagrams: seq![payload] },
            ],
        ),
{
}

/// A datagram that comes in time is looked at together with those before it. When
/// they give the host, all of them go, with it. When they do not give it yet, the
/// session waits on. When they never will, or a second datagram is of no use, all of
/// them go without it.
pub proof fn waiting_goes_by_what_is_found(
    p: PendingUdpSniff,
    spec: SpecView,
    payload: Seq<u8>,
    now_ms: u64,
)
    requires
        now_ms < p.deadline_ms,
        p.replay@.len() <= 7,
        total_bytes(p.replay@) + payload.len() <= 65536,
    ensures
        match quic::run_datagram(payload, p.sniffer@).1 {
            Ok(host) => pending_step(p, spec, payload, now_ms) == PendingStep::Send(
                seq![
                    DeliveryView {
                        spec: SpecView {
                            key: p.spec@.key,
                            routing: p.spec@.routing,
                            reply_path: p.spec@.reply_path,
                            host: Some(host),
                        },
                        datagrams: p.replay@.push(payload),
                    },
                ],
            ),
            Err(UdpSniffError::InsufficientPrefix) => pending_step(p, spec, payload, now_ms)
                == PendingStep::Wait,
            Err(UdpSniffError::ProtocolNotMatched) => if p.no_clue_attempts == 0 {
                pending_step(p, spec, payload, now_ms) == PendingStep::Wait
            } else {
                pending_step(p, spec, payload, now_ms) == PendingStep::Send(
                    seq![DeliveryView { spec: p.spec@, datagrams: p.replay@.push(payload) }],
                )
            },
            Err(_) => pending_step(p, spec, payload, now_ms) == PendingStep::Send(
                seq![DeliveryView { spec: p.spec@, datagrams: p.replay@.push(payload) }],
            ),
        },
{
}

/// The first datagram of a session is looked at only where hosts are looked for and
/// the session is not one that goes directly by the rules. When it gives the host, it
/// goes with it. When it does not give it yet, the session waits in full mode, and
/// else goes without. Else it goes as it is.
pub proof fn first_datagrams_are_looked_at(s: AppState, spec: SpecView, payload: Seq<u8>)
    ensures
        s.udp_sniffers@.len() == 0 ==> new_step(s, spec, payload) == NewStep::Pass,
        spec.routing is Auto && s.goes_direct(spec.key.target_addr.spec_ip(), None) ==> new_step(
            s,
            spec,
            payload,
        ) == NewStep::Pass,
        s.udp_sniffers@.len() > 0 && (spec.routing is ForceSocks5 || !s.goes_direct(
            spec.key.target_addr.spec_ip(),
            None,
        )) ==> match quic::run_datagram(payload, quic::CryptoStream::empty()).1 {
            Ok(host) => new_step(s, spec, payload) == NewStep::Send(
                DeliveryView {
                    spec: SpecView {
                        key: spec.key,
                        routing: spec.routing,
                        reply_path: spec.reply_path,
                        host: Some(host),
                    },
                    datagrams: seq![payload],
                },
            ),
            Err(UdpSniffError::InsufficientPrefix) => match s.config.quic_sniff_mode {
                QuicSniffMode::Full => new_step(s, spec, payload) == NewStep::Wait,
                _ => new_step(s, spec, payload) == NewStep::Send(
                    DeliveryView { spec, datagrams: seq![payload] },
                ),
            },
            Err(_) => new_step(s, spec, payload) == NewStep::Pass,
        },
{
}

/// A session that begins to wait does so for the time that is configured, from now
/// on, and starts with its first datagram.
pub proof fn waiting_has_a_deadline(
    s: AppState,
    spec: SpecView,
    payload: Seq<u8>,
    now_ms: u64,
    p: PendingUdpSniff,
)
    requires
        begins_to_wait(s, spec, payload, now_ms, p),
        now_ms + s.config.quic_sniff_pending_timeout_ms <= u64::MAX,
    ensures
        p.deadline_ms == now_ms + s.config.quic_sniff_pending_timeout_ms,
        p.no_clue_attempts == 0,
        p.replay@ == seq![payload],
        p.spec@ == spec,
{
}

/// No more than 4096 sessions wait. When one more begins to wait, that whose time is
/// up first goes, with all that waited; otherwise nobody does.
pub proof fn oldest_makes_room(
    before: Map<KeyCode, PendingUdpSniff>,
    after: Map<KeyCode, PendingUdpSniff>,
    p: PendingUdpSniff,
    out: Seq<DeliveryView>,
    keys: Seq<KeyCode>,
)
    requires
        room_was_made(before, after, p, out, keys),
    ensures
        ({
            let full = before.insert(session::key_code_of(p.spec.key), p);
            &&& full.dom().len() <= 4096 ==> after == full && out.len() == 0
            &&& full.dom().len() > 4096 ==> {
                &&& out.len() == 1 && keys.len() == 1
                &&& full.dom().contains(keys[0])
                &&& forall|k: KeyCode| #[trigger]
                    full.dom().contains(k) ==> full[keys[0]].deadline_ms <= full[k].deadline_ms
                &&& out[0].spec == full[keys[0]].spec@
                &&& out[0].datagrams == full[keys[0]].replay@
                &&& after == full.remove(keys[0])
            }
        }),
{
    let full = before.insert(session::key_code_of(p.spec.key), p);
    if keys.len() == 1 {
        assert(keys.drop_first().len() == 0);
        assert(oldest_taken(full.remove(keys[0]), after, keys.drop_first()));
        assert(out[0] == flushed(full[keys[0]]));
    }
}

/// Where sessions wait they are looked at every tenth of a second, else once a
/// second.
pub proof fn waiting_is_looked_at_often(mode: QuicSniffMode)
    ensures
        mode is Full ==> reap_interval(mode) == 100,
        !(mode is Full) ==> reap_interval(mode) == 1000,
{
}

} // verus!
