//! UDP sessions: their keys, the datagrams that wait for a host, and the sockets
//! that answer in the name of others.

pub mod fake;
pub mod pending;
pub mod session;

use crate::state::AppState;
use crate::sniff::quic;
use crate::udp::pending::{
    handle_new_udp_sniff, handle_pending_udp_sniff, Delivery, NewStep, PendingSniffMap, PendingStep,
    PendingUdpSniff,
};
use crate::udp::session::{KeyCode, SpecView, UdpSessionKey, UdpSessionSpec};
use vstd::prelude::*;

verus! {

/// Datagrams that are handled at the same time, at most.
pub const UDP_PACKET_TASK_LIMIT: usize = 4096;

/// How often to look for sessions that expired, in seconds.
pub const UDP_GC_INTERVAL_SECS: u64 = 10;

/// What stands for no deadline: thirty years, in milliseconds.
pub const NO_DEADLINE_MS: u64 = 946_080_000_000;

// ---------------------------------------------------------------------------
// Sessions
// ---------------------------------------------------------------------------

/// What there is of a session.
#[derive(Debug, Clone, Copy, PartialEq, Eq, Structural)]
pub enum SessionState {
    /// It is being made.
    Creating,
    /// It is there: its number, and when it was last used.
    Ready { id: u64, last_seen_secs: u64 },
}

/// A session and its key.
#[derive(Debug, Clone, Copy, PartialEq, Eq, Structural)]
pub struct SessionSlot {
    pub key: UdpSessionKey,
    pub state: SessionState,
}

/// The sessions of a forwarder. No two have the same key.
pub struct UdpRuntime {
    pub slots: Vec<SessionSlot>,
    pub timeout_secs: u64,
    /// Whether no sessions are made any more.
    pub closed: bool,
}

/// What somebody who needs a session has to do.
#[derive(Debug, Clone, Copy, PartialEq, Eq, Structural)]
pub enum BeginSession {
    /// Give up: no sessions are made any more.
    Closed,
    /// Use this one.
    Reuse(u64),
    /// Wait until the one that is being made is there, and ask again.
    Wait,
    /// Make one.
    Create,
}

/// A session that was made.
#[derive(Debug, Clone, Copy, PartialEq, Eq, Structural)]
pub struct MadeSession {
    pub id: u64,
    pub last_seen_secs: u64,
    /// Whether it ended before it was entered.
    pub cancelled: bool,
}

/// The first slot from `from` on with a key.
pub open spec fn slot_at(slots: Seq<SessionSlot>, key: UdpSessionKey, from: int) -> Option<int>
    decreases slots.len() - from,
{
    if from < 0 || from >= slots.len() {
        None
    } else if slots[from].key == key {
        Some(from)
    } else {
        slot_at(slots, key, from + 1)
    }
}

/// What there is of the session of a key.
pub open spec fn state_at(slots: Seq<SessionSlot>, key: UdpSessionKey) -> Option<SessionState> {
    match slot_at(slots, key, 0) {
        Some(i) => Some(slots[i].state),
        None => None,
    }
}

/// No two slots have the same key.
pub open spec fn slots_differ(slots: Seq<SessionSlot>) -> bool {
    forall|i: int, j: int|
        #![trigger slots[i], slots[j]]
        0 <= i < j < slots.len() ==> slots[i].key != slots[j].key
}

/// A session was not used for the time.
pub open spec fn is_expired(s: SessionState, now: u64, timeout_secs: u64) -> bool {
    s matches SessionState::Ready { id: _, last_seen_secs } && (now - last_seen_secs >= timeout_secs
        || timeout_secs == 0)
}

/// The numbers of the sessions among the first `n` slots that expired.
pub open spec fn expired_ids(
    slots: Seq<SessionSlot>,
    now: u64,
    timeout_secs: u64,
    n: int,
) -> Seq<u64>
    decreases n,
{
    if n <= 0 {
        Seq::empty()
    } else if is_expired(slots[n - 1].state, now, timeout_secs) {
        expired_ids(slots, now, timeout_secs, n - 1).push(slots[n - 1].state->id)
    } else {
        expired_ids(slots, now, timeout_secs, n - 1)
    }
}

/// The slots among the first `n` whose sessions did not expire.
pub open spec fn live_slots(
    slots: Seq<SessionSlot>,
    now: u64,
    timeout_secs: u64,
    n: int,
) -> Seq<SessionSlot>
    decreases n,
{
    if n <= 0 {
        Seq::empty()
    } else if is_expired(slots[n - 1].state, now, timeout_secs) {
        live_slots(slots, now, timeout_secs, n - 1)
    } else {
        live_slots(slots, now, timeout_secs, n - 1).push(slots[n - 1])
    }
}

/// The numbers of the sessions among the first `n` slots that are there.
pub open spec fn ready_ids(slots: Seq<SessionSlot>, n: int) -> Seq<u64>
    decreases n,
{
    if n <= 0 {
        Seq::empty()
    } else {
        match slots[n - 1].state {
            SessionState::Ready { id, last_seen_secs: _ } => ready_ids(slots, n - 1).push(id),
            SessionState::Creating => ready_ids(slots, n - 1),
        }
    }
}

proof fn lemma_slot_at(slots: Seq<SessionSlot>, key: UdpSessionKey, from: int)
    requires
        0 <= from <= slots.len(),
    ensures
        match slot_at(slots, key, from) {
            Some(p) => {
                &&& from <= p < slots.len()
                &&& slots[p].key == key
                &&& forall|i: int| from <= i < p ==> (#[trigger] slots[i]).key != key
            },
            None => forall|i: int| from <= i < slots.len() ==> (#[trigger] slots[i]).key != key,
        },
    decreases slots.len() - from,
{
    if from < slots.len() && slots[from].key != key {
        lemma_slot_at(slots, key, from + 1);
    }
}

/// Where keys differ, a slot is what there is of its session.
proof fn lemma_state_of_slot(slots: Seq<SessionSlot>, i: int)
    requires
        slots_differ(slots),
        0 <= i < slots.len(),
    ensures
        slot_at(slots, slots[i].key, 0) == Some(i),
        state_at(slots, slots[i].key) == Some(slots[i].state),
{
    lemma_slot_at(slots, slots[i].key, 0);
    let p = slot_at(slots, slots[i].key, 0)->0;
    if p < i {
        assert(slots[p].key != slots[i].key);
    }
}

/// A slot that nobody has stands for no session.
proof fn lemma_no_slot(slots: Seq<SessionSlot>, key: UdpSessionKey)
    requires
        forall|i: int| 0 <= i < slots.len() ==> (#[trigger] slots[i]).key != key,
    ensures
        state_at(slots, key) is None,
{
    lemma_slot_at(slots, key, 0);
}

proof fn lemma_slots_set(slots: Seq<SessionSlot>, at: int, state: SessionState, key: UdpSessionKey)
    requires
        slots_differ(slots),
        0 <= at < slots.len(),
    ensures
        ({
            let after = slots.update(at, SessionSlot { key: slots[at].key, state });
            &&& slots_differ(after)
            &&& state_at(after, key) == if key == slots[at].key {
                Some(state)
            } else {
                state_at(slots, key)
            }
        }),
{
    let after = slots.update(at, SessionSlot { key: slots[at].key, state });
    assert forall|i: int, j: int|
        #![trigger after[i], after[j]]
        0 <= i < j < after.len() implies after[i].key != after[j].key by {
        assert(slots[i].key != slots[j].key);
    }
    lemma_same_keys(slots, after, key);
    lemma_slot_at(slots, key, 0);
    lemma_state_of_slot(slots, at);
}

proof fn lemma_same_keys(a: Seq<SessionSlot>, b: Seq<SessionSlot>, key: UdpSessionKey)
    requires
        a.len() == b.len(),
        slots_differ(a),
        slots_differ(b),
        forall|i: int| 0 <= i < a.len() ==> (#[trigger] a[i]).key == b[i].key,
    ensures
        slot_at(a, key, 0) == slot_at(b, key, 0),
{
    lemma_slot_at(a, key, 0);
    lemma_slot_at(b, key, 0);
    match (slot_at(a, key, 0), slot_at(b, key, 0)) {
        (Some(p), Some(q)) => {
            if p < q {
                assert(b[p].key != key);
            } else if q < p {
                assert(a[q].key != key);
            }
        },
        (Some(p), None) => {
            assert(b[p].key != key);
        },
        (None, Some(q)) => {
            assert(a[q].key != key);
        },
        (None, None) => {},
    }
}

proof fn lemma_slots_push(slots: Seq<SessionSlot>, slot: SessionSlot, key: UdpSessionKey)
    requires
        slots_differ(slots),
        state_at(slots, slot.key) is None,
    ensures
        slots_differ(slots.push(slot)),
        state_at(slots.push(slot), key) == if key == slot.key {
            Some(slot.state)
        } else {
            state_at(slots, key)
        },
{
    let after = slots.push(slot);
    lemma_slot_at(slots, slot.key, 0);
    assert forall|i: int, j: int|
        #![trigger after[i], after[j]]
        0 <= i < j < after.len() implies after[i].key != after[j].key by {
        if j == slots.len() {
            assert(slots[i].key != slot.key);
        } else {
            assert(slots[i].key != slots[j].key);
        }
    }
    lemma_slot_at(slots, key, 0);
    if key == slot.key {
        lemma_state_of_slot(after, slots.len() as int);
        assert(after[slots.len() as int] == slot);
    } else {
        match slot_at(slots, key, 0) {
            Some(p) => {
                assert(after[p] == slots[p]);
                lemma_state_of_slot(after, p);
            },
            None => {
                assert forall|i: int| 0 <= i < after.len() implies (#[trigger] after[i]).key
                    != key by {
                    if i < slots.len() {
                        assert(slots[i].key != key);
                    }
                }
                lemma_no_slot(after, key);
            },
        }
    }
}

proof fn lemma_slots_remove(slots: Seq<SessionSlot>, at: int, key: UdpSessionKey)
    requires
        slots_differ(slots),
        0 <= at < slots.len(),
    ensures
        slots_differ(slots.remove(at)),
        state_at(slots.remove(at), key) == if key == slots[at].key {
            None
        } else {
            state_at(slots, key)
        },
{
    let after = slots.remove(at);
    assert(forall|i: int| 0 <= i < at ==> after[i] == slots[i]);
    assert(forall|i: int| at <= i < after.len() ==> after[i] == slots[i + 1]);
    assert forall|i: int, j: int|
        #![trigger after[i], after[j]]
        0 <= i < j < after.len() implies after[i].key != after[j].key by {
        let a = if i < at {
            i
        } else {
            i + 1
        };
        let b = if j < at {
            j
        } else {
            j + 1
        };
        assert(slots[a].key != slots[b].key);
    }
    lemma_slot_at(slots, key, 0);
    if key == slots[at].key {
        assert forall|i: int| 0 <= i < after.len() implies (#[trigger] after[i]).key != key by {
            if i < at {
                assert(slots[i].key != slots[at].key);
            } else {
                assert(slots[at].key != slots[i + 1].key);
            }
        }
        lemma_no_slot(after, key);
    } else {
        match slot_at(slots, key, 0) {
            Some(p) => {
                let q = if p < at {
                    p
                } else {
                    p - 1
                };
                assert(after[q] == slots[p]);
                lemma_state_of_slot(after, q);
            },
            None => {
                assert forall|i: int| 0 <= i < after.len() implies (#[trigger] after[i]).key
                    != key by {
                    let a = if i < at {
                        i
                    } else {
                        i + 1
                    };
                    assert(slots[a].key != key);
                }
                lemma_no_slot(after, key);
            },
        }
    }
}

proof fn lemma_live_slots(slots: Seq<SessionSlot>, now: u64, timeout_secs: u64, n: int)
    requires
        slots_differ(slots),
        0 <= n <= slots.len(),
    ensures
        ({
            let live = live_slots(slots, now, timeout_secs, n);
            &&& slots_differ(live)
            &&& forall|i: int|
                0 <= i < live.len() ==> exists|j: int|
                    0 <= j < n && slots[j] == #[trigger] live[i] && !is_expired(
                        slots[j].state,
                        now,
                        timeout_secs,
                    )
            &&& forall|j: int|
                0 <= j < n && !is_expired((#[trigger] slots[j]).state, now, timeout_secs)
                    ==> live.contains(slots[j])
        }),
    decreases n,
{
    if n > 0 {
        lemma_live_slots(slots, now, timeout_secs, n - 1);
        let before = live_slots(slots, now, timeout_secs, n - 1);
        let live = live_slots(slots, now, timeout_secs, n);
        assert forall|i: int| 0 <= i < live.len() implies exists|j: int|
            0 <= j < n && slots[j] == #[trigger] live[i] && !is_expired(
                slots[j].state,
                now,
                timeout_secs,
            ) by {
            if i < before.len() {
                let j = choose|j: int|
                    0 <= j < n - 1 && slots[j] == #[trigger] before[i] && !is_expired(
                        slots[j].state,
                        now,
                        timeout_secs,
                    );
                assert(slots[j] == live[i]);
            } else {
                assert(slots[n - 1] == live[i]);
            }
        }
        assert forall|i: int, j: int|
            #![trigger live[i], live[j]]
            0 <= i < j < live.len() implies live[i].key != live[j].key by {
            if j == before.len() {
                let q = choose|q: int|
                    0 <= q < n - 1 && slots[q] == #[trigger] before[i] && !is_expired(
                        slots[q].state,
                        now,
                        timeout_secs,
                    );
                assert(slots[q].key != slots[n - 1].key);
            } else {
                assert(before[i].key != before[j].key);
            }
        }
        assert forall|j: int|
            0 <= j < n && !is_expired(
                (#[trigger] slots[j]).state,
                now,
                timeout_secs,
            ) implies live.contains(slots[j]) by {
            if j < n - 1 {
                let q = choose|q: int| 0 <= q < before.len() && before[q] == slots[j];
                assert(live[q] == slots[j]);
            } else {
                assert(live[before.len() as int] == slots[j]);
            }
        }
    }
}

proof fn lemma_live_states(slots: Seq<SessionSlot>, now: u64, timeout_secs: u64, key: UdpSessionKey)
    requires
        slots_differ(slots),
    ensures
        ({
            let live = live_slots(slots, now, timeout_secs, slots.len() as int);
            state_at(live, key) == match state_at(slots, key) {
                Some(s) if !is_expired(s, now, timeout_secs) => Some(s),
                _ => None,
            }
        }),
{
    let live = live_slots(slots, now, timeout_secs, slots.len() as int);
    lemma_live_slots(slots, now, timeout_secs, slots.len() as int);
    lemma_slot_at(slots, key, 0);
    lemma_slot_at(live, key, 0);
    if let Some(p) = slot_at(live, key, 0) {
        let j = choose|j: int|
            0 <= j < slots.len() && slots[j] == #[trigger] live[p] && !is_expired(
                slots[j].state,
                now,
                timeout_secs,
            );
        lemma_state_of_slot(slots, j);
    } else {
        if let Some(p) = slot_at(slots, key, 0) {
            if !is_expired(slots[p].state, now, timeout_secs) {
                let q = choose|q: int| 0 <= q < live.len() && live[q] == slots[p];
                assert(live[q].key != key);
            }
        }
    }
}

impl UdpRuntime {
    pub open spec fn wf(self) -> bool {
        slots_differ(self.slots@)
    }

    /// What there is of the session of a key.
    pub open spec fn at(self, key: UdpSessionKey) -> Option<SessionState> {
        state_at(self.slots@, key)
    }

    /// What somebody who needs a session has to do.
    pub open spec fn begins(self, key: UdpSessionKey) -> BeginSession {
        if self.closed {
            BeginSession::Closed
        } else {
            match self.at(key) {
                Some(SessionState::Ready { id, last_seen_secs: _ }) => BeginSession::Reuse(id),
                Some(SessionState::Creating) => BeginSession::Wait,
                None => BeginSession::Create,
            }
        }
    }

    /// Nothing but what there is of one session changed.
    pub open spec fn changes(
        self,
        after: UdpRuntime,
        key: UdpSessionKey,
        state: Option<SessionState>,
    ) -> bool {
        &&& after.timeout_secs == self.timeout_secs
        &&& after.closed == self.closed
        &&& forall|k: UdpSessionKey| #[trigger]
            after.at(k) == if k == key {
                state
            } else {
                self.at(k)
            }
    }

    /// No sessions.
    pub fn new(timeout_secs: u64) -> (r: Self)
        ensures
            r.slots@.len() == 0,
            r.timeout_secs == timeout_secs,
            !r.closed,
            r.wf(),
    {
        UdpRuntime { slots: Vec::new(), timeout_secs, closed: false }
    }

    fn find(&self, key: UdpSessionKey) -> (r: Option<usize>)
        ensures
            match r {
                Some(i) => slot_at(self.slots@, key, 0) == Some(i as int) && i < self.slots@.len()
                    && self.slots@[i as int].key == key,
                None => slot_at(self.slots@, key, 0) is None,
            },
    {
        let mut i: usize = 0;
        while i < self.slots.len()
            invariant
                i <= self.slots@.len(),
                slot_at(self.slots@, key, 0) == slot_at(self.slots@, key, i as int),
            decreases self.slots@.len() - i,
        {
            if self.slots[i].key == key {
                return Some(i);
            }
            i += 1;
        }
        None
    }

    fn put(&mut self, key: UdpSessionKey, state: SessionState)
        requires
            old(self).wf(),
        ensures
            final(self).wf(),
            old(self).changes(*final(self), key, Some(state)),
    {
        let ghost before = self.slots@;
        match self.find(key) {
            Some(i) => {
                self.slots.set(i, SessionSlot { key, state });
                proof {
                    assert forall|k: UdpSessionKey| #[trigger] state_at(self.slots@, k) == if k
                        == key {
                        Some(state)
                    } else {
                        state_at(before, k)
                    } by {
                        lemma_slots_set(before, i as int, state, k);
                    }
                    lemma_slots_set(before, i as int, state, key);
                }
            },
            None => {
                self.slots.push(SessionSlot { key, state });
                proof {
                    assert forall|k: UdpSessionKey| #[trigger] state_at(self.slots@, k) == if k
                        == key {
                        Some(state)
                    } else {
                        state_at(before, k)
                    } by {
                        lemma_slots_push(before, SessionSlot { key, state }, k);
                    }
                    lemma_slots_push(before, SessionSlot { key, state }, key);
                }
            },
        }
    }

    fn drop_key(&mut self, key: UdpSessionKey)
        requires
            old(self).wf(),
        ensures
            final(self).wf(),
            old(self).changes(*final(self), key, None),
    {
        let ghost before = self.slots@;
        match self.find(key) {
            Some(i) => {
                let _slot = self.slots.remove(i);
                proof {
                    assert forall|k: UdpSessionKey| #[trigger] state_at(self.slots@, k) == if k
                        == key {
                        None
                    } else {
                        state_at(before, k)
                    } by {
                        lemma_slots_remove(before, i as int, k);
                    }
                    lemma_slots_remove(before, i as int, key);
                }
            },
            None => {},
        }
    }

    /// Asks for the session of a key. Who is told to make it is the only one.
    pub fn begin(&mut self, key: UdpSessionKey) -> (r: BeginSession)
        requires
            old(self).wf(),
        ensures
            final(self).wf(),
            r == old(self).begins(key),
            r is Create ==> old(self).changes(*final(self), key, Some(SessionState::Creating)),
            !(r is Create) ==> *final(self) == *old(self),
    {
        if self.closed {
            return BeginSession::Closed;
        }
        match self.find(key) {
            Some(i) => match self.slots[i].state {
                SessionState::Ready { id, last_seen_secs: _ } => BeginSession::Reuse(id),
                SessionState::Creating => BeginSession::Wait,
            },
            None => {
                self.put(key, SessionState::Creating);
                BeginSession::Create
            },
        }
    }

    /// Enters the session that was made for a key, and says whether it was. One
    /// that could not be made, that ended already, or that comes when no sessions
    /// are made any more is not entered, and the key is free again.
    pub fn finish(&mut self, key: UdpSessionKey, made: Option<MadeSession>) -> (r: bool)
        requires
            old(self).wf(),
        ensures
            final(self).wf(),
            r == (!old(self).closed && made is Some && !made->0.cancelled),
            old(self).changes(
                *final(self),
                key,
                if r {
                    Some(
                        SessionState::Ready {
                            id: made->0.id,
                            last_seen_secs: made->0.last_seen_secs,
                        },
                    )
                } else {
                    None
                },
            ),
            made is None || made->0.cancelled ==> final(self).at(key) is None,
            old(self).closed ==> final(self).at(key) is None,
            r ==> final(self).begins(key) == BeginSession::Reuse(made->0.id),
            !r && !old(self).closed ==> final(self).begins(key) == BeginSession::Create,
    {
        if !self.closed {
            if let Some(m) = made {
                if !m.cancelled {
                    self.put(
                        key,
                        SessionState::Ready { id: m.id, last_seen_secs: m.last_seen_secs },
                    );
                    return true;
                }
            }
        }
        self.drop_key(key);
        false
    }

    /// The session of a key, if it is there.
    pub fn get_ready_udp_session(&self, key: UdpSessionKey) -> (r: Option<u64>)
        ensures
            r == match self.at(key) {
                Some(SessionState::Ready { id, last_seen_secs: _ }) => Some(id),
                _ => None,
            },
    {
        match self.find(key) {
            Some(i) => match self.slots[i].state {
                SessionState::Ready { id, last_seen_secs: _ } => Some(id),
                SessionState::Creating => None,
            },
            None => None,
        }
    }

    /// Whether the session of a key is being made.
    pub fn is_being_made(&self, key: UdpSessionKey) -> (r: bool)
        ensures
            r == (self.at(key) == Some(SessionState::Creating)),
    {
        match self.find(key) {
            Some(i) => match self.slots[i].state {
                SessionState::Ready { .. } => false,
                SessionState::Creating => true,
            },
            None => false,
        }
    }

    /// Notes that a session was used.
    pub fn touch(&mut self, key: UdpSessionKey, id: u64, now: u64)
        requires
            old(self).wf(),
        ensures
            final(self).wf(),
            old(self).changes(
                *final(self),
                key,
                match old(self).at(key) {
                    Some(SessionState::Ready { id: current, last_seen_secs: _ }) if current == id
                        => Some(SessionState::Ready { id, last_seen_secs: now }),
                    other => other,
                },
            ),
            // A session that is not there is not made, and one of another number, or
            // one that is being made, is not touched.
            final(self).at(key) is Some <==> old(self).at(key) is Some,
            old(self).at(key) == Some(SessionState::Creating) ==> final(self).at(key) == Some(
                SessionState::Creating,
            ),
            old(self).at(key) matches Some(SessionState::Ready { id: other, last_seen_secs: _ })
                && other != id ==> final(self).at(key) == old(self).at(key),
    {
        match self.find(key) {
            Some(i) => match self.slots[i].state {
                SessionState::Ready { id: current, last_seen_secs: _ } => {
                    if current == id {
                        self.put(key, SessionState::Ready { id, last_seen_secs: now });
                    }
                },
                SessionState::Creating => {},
            },
            None => {},
        }
    }

    /// Takes out a session that ended, unless another has its key by now.
    pub fn remove_if_current(&mut self, key: UdpSessionKey, id: u64)
        requires
            old(self).wf(),
        ensures
            final(self).wf(),
            old(self).changes(
                *final(self),
                key,
                match old(self).at(key) {
                    Some(SessionState::Ready { id: current, last_seen_secs: _ }) if current == id
                        => None,
                    other => other,
                },
            ),
            // One that is being made, and one of another number, stays.
            old(self).at(key) == Some(SessionState::Creating) ==> final(self).at(key) == Some(
                SessionState::Creating,
            ),
            old(self).at(key) matches Some(SessionState::Ready { id: other, last_seen_secs: _ })
                && other != id ==> final(self).at(key) == old(self).at(key),
            old(self).at(key) matches Some(SessionState::Ready { id: same, last_seen_secs: _ })
                && same == id ==> final(self).at(key) is None,
    {
        match self.find(key) {
            Some(i) => match self.slots[i].state {
                SessionState::Ready { id: current, last_seen_secs: _ } => {
                    if current == id {
                        self.drop_key(key);
                    }
                },
                SessionState::Creating => {},
            },
            None => {},
        }
    }

    /// Takes out the sessions that were not used for the time, and says which.
    /// One that is being made does not expire.
    pub fn cleanup_expired_sessions(&mut self, now: u64) -> (r: Vec<u64>)
        requires
            old(self).wf(),
        ensures
            final(self).wf(),
            final(self).timeout_secs == old(self).timeout_secs,
            final(self).closed == old(self).closed,
            r@ == expired_ids(
                old(self).slots@,
                now,
                old(self).timeout_secs,
                old(self).slots@.len() as int,
            ),
            forall|k: UdpSessionKey| #[trigger]
                final(self).at(k) == match old(self).at(k) {
                    Some(s) if !is_expired(s, now, old(self).timeout_secs) => Some(s),
                    _ => None,
                },
            forall|k: UdpSessionKey|
                (#[trigger] old(self).at(k) matches Some(
                    SessionState::Ready { id: _, last_seen_secs },
                ) && now < last_seen_secs + old(self).timeout_secs && old(self).timeout_secs > 0)
                    ==> final(self).at(k)
                    == old(self).at(k),
            forall|k: UdpSessionKey| #[trigger]
                old(self).at(k) == Some(SessionState::Creating) ==> final(self).at(k) == Some(
                    SessionState::Creating,
                ),
    {
        let ghost start = self.slots@;
        let timeout = self.timeout_secs;
        let mut live: Vec<SessionSlot> = Vec::new();
        let mut gone: Vec<u64> = Vec::new();
        let mut i: usize = 0;
        while i < self.slots.len()
            invariant
                i <= self.slots@.len(),
                self.slots@ == start,
                self.timeout_secs == old(self).timeout_secs,
                self.closed == old(self).closed,
                timeout == old(self).timeout_secs,
                live@ == live_slots(start, now, timeout, i as int),
                gone@ == expired_ids(start, now, timeout, i as int),
            decreases self.slots@.len() - i,
        {
            let slot = self.slots[i];
            match slot.state {
                SessionState::Ready { id, last_seen_secs } => {
                    if now.saturating_sub(last_seen_secs) >= timeout {
                        gone.push(id);
                    } else {
                        live.push(slot);
                    }
                },
                SessionState::Creating => {
                    live.push(slot);
                },
            }
            i += 1;
        }
        self.slots = live;
        proof {
            lemma_live_slots(start, now, timeout, start.len() as int);
            assert forall|k: UdpSessionKey| #[trigger] self.at(k) == match old(self).at(k) {
                Some(s) if !is_expired(s, now, old(self).timeout_secs) => Some(s),
                _ => None,
            } by {
                lemma_live_states(start, now, timeout, k);
            }
        }
        gone
    }

    /// Takes out all sessions, says which were there, and lets none be made any
    /// more.
    pub fn close(&mut self) -> (r: Vec<u64>)
        ensures
            r@ == ready_ids(old(self).slots@, old(self).slots@.len() as int),
            final(self).slots@.len() == 0,
            final(self).closed,
            final(self).timeout_secs == old(self).timeout_secs,
            final(self).wf(),
    {
        let ghost start = self.slots@;
        let mut ids: Vec<u64> = Vec::new();
        let mut i: usize = 0;
        while i < self.slots.len()
            invariant
                i <= self.slots@.len(),
                self.slots@ == start,
                self.timeout_secs == old(self).timeout_secs,
                ids@ == ready_ids(start, i as int),
            decreases self.slots@.len() - i,
        {
            match self.slots[i].state {
                SessionState::Ready { id, last_seen_secs: _ } => {
                    ids.push(id);
                },
                SessionState::Creating => {},
            }
            i += 1;
        }
        self.slots = Vec::new();
        self.closed = true;
        ids
    }
}

/// Of all who ask for a session that is not there, the first is told to make it,
/// and the others wait until it is there or could not be made.
pub proof fn one_makes_a_session(before: UdpRuntime, after: UdpRuntime, key: UdpSessionKey)
    requires
        before.begins(key) is Create,
        before.changes(after, key, Some(SessionState::Creating)),
    ensures
        after.begins(key) == BeginSession::Wait,
{
}

/// A session that was entered is the one that everybody gets after that.
pub proof fn entered_session_is_used(
    before: UdpRuntime,
    after: UdpRuntime,
    key: UdpSessionKey,
    id: u64,
    last_seen_secs: u64,
)
    requires
        !before.closed,
        before.changes(after, key, Some(SessionState::Ready { id, last_seen_secs })),
    ensures
        after.begins(key) == BeginSession::Reuse(id),
{
}

/// Once no sessions are made any more, none is entered.
pub proof fn closed_runtime_stays_empty(r: UdpRuntime, key: UdpSessionKey)
    requires
        r.closed,
    ensures
        r.begins(key) == BeginSession::Closed,
{
}

// ---------------------------------------------------------------------------
// Datagrams
// ---------------------------------------------------------------------------

/// What becomes of a datagram of a client.
pub enum UdpHandling {
    /// It is dropped.
    Ignore,
    /// It goes out by this session.
    ToSession(u64),
    /// This is sent, in order; nothing if the datagram waits.
    Send(Vec<Delivery>),
}

/// Handles a datagram of a client. One of a session that is there goes out by it,
/// and nothing of that session waits any longer. One of a session that is being
/// made is for that session. Else it goes to those that wait, or is looked at as
/// the first of its session.
pub fn handle_udp_client_payload(
    state: &mut AppState,
    runtime: &UdpRuntime,
    pending: &mut PendingSniffMap,
    spec: &UdpSessionSpec,
    payload: &[u8],
    now_ms: u64,
) -> (r: UdpHandling)
    requires
        old(state).wf(),
        old(pending).wf(),
    ensures
        final(state).wf(),
        if !runtime.closed && runtime.at(spec.key) is None && old(pending).at(spec.key) is None {
            pending::looked_at(*old(state), *final(state), spec@)
        } else {
            *final(state) == *old(state)
        },
        final(state).route_cache.ttl_secs == old(state).route_cache.ttl_secs,
        final(state).route_cache.max == old(state).route_cache.max,
        *final(state) == (AppState { route_cache: final(state).route_cache, ..*old(state) }),
        final(pending).wf(),
        if runtime.closed {
            r is Ignore && final(pending)@ == old(pending)@
        } else {
            match runtime.at(spec.key) {
                Some(SessionState::Ready { id, last_seen_secs: _ }) => {
                    &&& r == UdpHandling::ToSession(id)
                    &&& final(pending)@ == old(pending)@.remove(session::key_code_of(spec.key))
                },
                Some(SessionState::Creating) => {
                    &&& r matches UdpHandling::Send(out)
                    &&& pending::deliveries(out@) == seq![pending::alone(spec@, payload@)]
                    &&& final(pending)@ == old(pending)@
                },
                None => {
                    &&& r matches UdpHandling::Send(out)
                    &&& sends(
                        *old(state),
                        spec@,
                        payload@,
                        now_ms,
                        *old(pending),
                        *final(pending),
                        pending::deliveries(out@),
                    )
                },
            }
        },
{
    if runtime.closed {
        return UdpHandling::Ignore;
    }
    if let Some(id) = runtime.get_ready_udp_session(spec.key) {
        let ghost before = pending@;
        let _waiting = pending.remove(spec.key);
        proof {
            let code = session::key_code_of(spec.key);
            assert(pending@.dom() =~= before.dom().remove(code));
            vstd::set_lib::lemma_len_subset(pending@.dom(), before.dom());
        }
        return UdpHandling::ToSession(id);
    }
    if runtime.is_being_made(spec.key) {
        return UdpHandling::Send(send_alone(spec, payload));
    }
    let ghost first = *pending;
    if let Some(out) = handle_pending_udp_sniff(pending, spec, payload, now_ms) {
        return UdpHandling::Send(out);
    }
    assert(first.at(spec.key) is None);
    if let Some(out) = handle_new_udp_sniff(state, pending, spec, payload, now_ms) {
        return UdpHandling::Send(out);
    }
    UdpHandling::Send(send_alone(spec, payload))
}

fn send_alone(spec: &UdpSessionSpec, payload: &[u8]) -> (r: Vec<Delivery>)
    ensures
        pending::deliveries(r@) == seq![pending::alone(spec@, payload@)],
{
    let mut single: Vec<u8> = Vec::new();
    crate::bytes::append_all(&mut single, payload);
    assert(single@ =~= payload@);
    let d = Delivery { spec: spec.copy(), datagrams: vec![single] };
    let out = vec![d];
    proof {
        assert(d@.datagrams =~= seq![payload@]);
        assert(pending::deliveries(out@) =~= seq![pending::alone(spec@, payload@)]);
    }
    out
}

/// What is sent of a datagram of a session that is not there, and what waits.
pub open spec fn sends(
    s: AppState,
    spec: SpecView,
    payload: Seq<u8>,
    now_ms: u64,
    before: PendingSniffMap,
    after: PendingSniffMap,
    out: Seq<pending::DeliveryView>,
) -> bool {
    match before.at(spec.key) {
        Some(p) => match pending::pending_step(p, spec, payload, now_ms) {
            PendingStep::Send(v) => out == v && after@ == before@.remove(
                session::key_code_of(spec.key),
            ),
            PendingStep::Wait => {
                &&& out.len() == 0
                &&& after.at(spec.key) matches Some(p2)
                &&& pending::waits_on(p, payload, p2)
                &&& after@ == before@.insert(session::key_code_of(spec.key), p2)
            },
        },
        None => match pending::new_step(s, spec, payload) {
            NewStep::Pass => out == seq![pending::alone(spec, payload)] && after@ == before@,
            NewStep::Send(d) => out == seq![d] && after@ == before@,
            NewStep::Wait => pending::one_more_waits(
                s,
                spec,
                payload,
                now_ms,
                before@,
                after@,
                out,
            ),
        },
    }
}

/// No session that waits for a host is there or being made.
pub open spec fn are_apart(runtime: UdpRuntime, pending: PendingSniffMap) -> bool {
    forall|key: UdpSessionKey| #[trigger]
        pending.at(key) is Some ==> runtime.at(key) is None
}

/// A session waits for its host or is made, never both: what waits stays apart
/// from what is made, and whatever is sent, which may make a session, is of
/// sessions that wait no longer.
pub proof fn waiting_and_made_stay_apart(
    s: AppState,
    runtime: UdpRuntime,
    spec: SpecView,
    payload: Seq<u8>,
    now_ms: u64,
    before: PendingSniffMap,
    after: PendingSniffMap,
    out: Seq<pending::DeliveryView>,
)
    requires
        before.wf(),
        after.wf(),
        are_apart(runtime, before),
        runtime.at(spec.key) is None,
        sends(s, spec, payload, now_ms, before, after, out),
    ensures
        are_apart(runtime, after),
        forall|i: int| 0 <= i < out.len() ==> after.at((#[trigger] out[i]).spec.key) is None,
{
    let code = session::key_code_of(spec.key);
    assert forall|k: KeyCode| #[trigger] after@.dom().contains(k) implies before@.dom().contains(k)
        || k == code by {
        lemma_nobody_else_waits(s, spec, payload, now_ms, before, after, out, k);
    }
    assert forall|key: UdpSessionKey| #[trigger] after.at(key) is Some implies runtime.at(
        key,
    ) is None by {
        let k = session::key_code_of(key);
        assert(after@.dom().contains(k));
        if before@.dom().contains(k) {
            assert(before.at(key) is Some);
        } else {
            session::codes_tell_keys_apart(key, spec.key);
        }
    }
    assert forall|i: int| 0 <= i < out.len() implies after.at((#[trigger] out[i]).spec.key) is None by {
        lemma_sent_waits_no_longer(s, spec, payload, now_ms, before, after, out, i);
    }
}

proof fn lemma_nobody_else_waits(
    s: AppState,
    spec: SpecView,
    payload: Seq<u8>,
    now_ms: u64,
    before: PendingSniffMap,
    after: PendingSniffMap,
    out: Seq<pending::DeliveryView>,
    k: KeyCode,
)
    requires
        sends(s, spec, payload, now_ms, before, after, out),
        after@.dom().contains(k),
    ensures
        before@.dom().contains(k) || k == session::key_code_of(spec.key),
{
    if before.at(spec.key) is None && pending::new_step(s, spec, payload) is Wait {
        let (p, keys) = choose|p: PendingUdpSniff, keys: Seq<KeyCode>| {
            &&& pending::begins_to_wait(s, spec, payload, now_ms, p)
            &&& #[trigger] pending::room_was_made(before@, after@, p, out, keys)
        };
        let full = before@.insert(session::key_code_of(p.spec.key), p);
        pending::lemma_taken_values(full, after@, keys, k);
        assert(p.spec@.key == p.spec.key);
    }
}

proof fn lemma_sent_waits_no_longer(
    s: AppState,
    spec: SpecView,
    payload: Seq<u8>,
    now_ms: u64,
    before: PendingSniffMap,
    after: PendingSniffMap,
    out: Seq<pending::DeliveryView>,
    i: int,
)
    requires
        before.wf(),
        sends(s, spec, payload, now_ms, before, after, out),
        0 <= i < out.len(),
    ensures
        after.at(out[i].spec.key) is None,
{
    let code = session::key_code_of(spec.key);
    match before.at(spec.key) {
        Some(p) => {
            assert(session::key_code_of(p.spec.key) == code);
            assert(p.spec@.key == p.spec.key);
            assert(session::key_code_of(out[i].spec.key) == code);
        },
        None => match pending::new_step(s, spec, payload) {
            NewStep::Wait => {
                let (p, keys) = choose|p: PendingUdpSniff, keys: Seq<KeyCode>| {
                    &&& pending::begins_to_wait(s, spec, payload, now_ms, p)
                    &&& #[trigger] pending::room_was_made(before@, after@, p, out, keys)
                };
                let full = before@.insert(session::key_code_of(p.spec.key), p);
                assert(keys[0] == keys[i]);
                assert(full.dom().contains(keys[0]));
                assert(session::key_code_of(full[keys[0]].spec.key) == keys[0]);
                assert(full[keys[0]].spec@.key == full[keys[0]].spec.key);
                assert(out[i] == pending::flushed(full[keys[0]]));
                reveal_with_fuel(pending::oldest_taken, 2);
                assert(after@ == full.remove(keys[0]));
            },
            _ => {
                assert(out[i].spec.key == spec.key);
            },
        },
    }
}

/// No session that waits has a host.
pub open spec fn are_unnamed(m: Map<KeyCode, PendingUdpSniff>) -> bool {
    forall|k: KeyCode| #[trigger] m.dom().contains(k) ==> m[k].spec@.host is None
}

/// The host that a datagram gives to its session.
pub open spec fn host_found(before: PendingSniffMap, spec: SpecView, payload: Seq<u8>) -> Option<
    Seq<char>,
> {
    let result = match before.at(spec.key) {
        Some(p) => quic::run_datagram(payload, p.sniffer@).1,
        None => quic::run_datagram(payload, quic::CryptoStream::empty()).1,
    };
    match result {
        Ok(host) => Some(host),
        Err(_) => None,
    }
}

/// A session gets a host from its own datagrams and from nowhere else: what is sent
/// because the time is up, there is no room or the datagrams are of no use goes
/// without one.
pub proof fn hosts_come_from_datagrams(
    s: AppState,
    spec: SpecView,
    payload: Seq<u8>,
    now_ms: u64,
    before: PendingSniffMap,
    after: PendingSniffMap,
    out: Seq<pending::DeliveryView>,
)
    requires
        are_unnamed(before@),
        spec.host is None,
        sends(s, spec, payload, now_ms, before, after, out),
    ensures
        are_unnamed(after@),
        forall|i: int|
            0 <= i < out.len() ==> (#[trigger] out[i]).spec.host is None || out[i].spec.host
                == host_found(before, spec, payload),
        before.at(spec.key) matches Some(p) && now_ms >= p.deadline_ms ==> forall|i: int|
            0 <= i < out.len() ==> (#[trigger] out[i]).spec.host is None,
{
    let code = session::key_code_of(spec.key);
    match before.at(spec.key) {
        Some(p) => {
            assert(p.spec@.host is None);
            match pending::pending_step(p, spec, payload, now_ms) {
                PendingStep::Send(_) => {},
                PendingStep::Wait => {
                    let p2 = after.at(spec.key)->0;
                    assert(p2.spec@.host is None);
                    assert(after@[code] == p2);
                },
            }
        },
        None => match pending::new_step(s, spec, payload) {
            NewStep::Wait => {
                let (p, keys) = choose|p: PendingUdpSniff, keys: Seq<KeyCode>| {
                    &&& pending::begins_to_wait(s, spec, payload, now_ms, p)
                    &&& #[trigger] pending::room_was_made(before@, after@, p, out, keys)
                };
                let full = before@.insert(session::key_code_of(p.spec.key), p);
                assert(are_unnamed(full));
                assert forall|k: KeyCode| #[trigger] after@.dom().contains(
                    k,
                ) implies after@[k].spec@.host is None by {
                    pending::lemma_taken_values(full, after@, keys, k);
                    assert(full.dom().contains(k));
                }
                assert forall|i: int| 0 <= i < out.len() implies (#[trigger] out[i]).spec.host is None by {
                    assert(keys[0] == keys[i]);
                    assert(full.dom().contains(keys[0]));
                    assert(out[i] == pending::flushed(full[keys[0]]));
                }
            },
            _ => {},
        },
    }
}

/// When a session ends that gets no replies: so long after `now_ms`, or never.
pub open spec fn idle_deadline_of(now_ms: u64, idle_timeout_secs: u64) -> Option<u64> {
    if idle_timeout_secs == 0 {
        None
    } else if now_ms + idle_timeout_secs * 1000 <= u64::MAX {
        Some((now_ms + idle_timeout_secs * 1000) as u64)
    } else {
        Some(pending::later(now_ms, NO_DEADLINE_MS))
    }
}

/// When a session ends that gets no replies after `now_ms`. A timeout that no
/// clock can tell means thirty years.
pub fn idle_deadline(now_ms: u64, idle_timeout_secs: u64) -> (r: Option<u64>)
    ensures
        r == idle_deadline_of(now_ms, idle_timeout_secs),
{
    if idle_timeout_secs == 0 {
        return None;
    }
    match idle_timeout_secs.checked_mul(1000) {
        Some(ms) => match now_ms.checked_add(ms) {
            Some(t) => Some(t),
            None => Some(now_ms.saturating_add(NO_DEADLINE_MS)),
        },
        None => Some(now_ms.saturating_add(NO_DEADLINE_MS)),
    }
}

/// A session expires once it was not used for the time, and not before; one that is
/// being made never does.
pub proof fn unused_sessions_expire(id: u64, last: u64, now: u64, timeout: u64)
    ensures
        timeout > 0 ==> (is_expired(
            SessionState::Ready { id, last_seen_secs: last },
            now,
            timeout,
        ) <==> now >= last + timeout),
        is_expired(SessionState::Ready { id, last_seen_secs: last }, now, 0),
        !is_expired(SessionState::Creating, now, timeout),
{
}

/// Of the slots exactly those stay whose sessions did not expire, and exactly the
/// numbers of the others are given up.
pub proof fn expired_sessions_are_given_up(
    slots: Seq<SessionSlot>,
    now: u64,
    timeout: u64,
    slot: SessionSlot,
)
    ensures
        live_slots(slots, now, timeout, slots.len() as int).contains(slot) <==> slots.contains(slot)
            && !is_expired(slot.state, now, timeout),
        slots.contains(slot) && is_expired(slot.state, now, timeout) ==> expired_ids(
            slots,
            now,
            timeout,
            slots.len() as int,
        ).contains(slot.state->id),
        live_slots(slots, now, timeout, slots.len() as int).len() + expired_ids(
            slots,
            now,
            timeout,
            slots.len() as int,
        ).len() == slots.len(),
{
    lemma_given_up(slots, now, timeout, slot, slots.len() as int);
    assert(slots.take(slots.len() as int) =~= slots);
}

proof fn lemma_given_up(
    slots: Seq<SessionSlot>,
    now: u64,
    timeout: u64,
    slot: SessionSlot,
    n: int,
)
    requires
        0 <= n <= slots.len(),
    ensures
        live_slots(slots, now, timeout, n).contains(slot) <==> slots.take(n).contains(slot)
            && !is_expired(slot.state, now, timeout),
        slots.take(n).contains(slot) && is_expired(slot.state, now, timeout) ==> expired_ids(
            slots,
            now,
            timeout,
            n,
        ).contains(slot.state->id),
        live_slots(slots, now, timeout, n).len() + expired_ids(slots, now, timeout, n).len() == n,
    decreases n,
{
    if n > 0 {
        lemma_given_up(slots, now, timeout, slot, n - 1);
        let x = slots[n - 1];
        let front = slots.take(n - 1);
        let all = slots.take(n);
        assert(all =~= front.push(x));
        assert(all.contains(slot) <==> front.contains(slot) || slot == x) by {
            if front.contains(slot) {
                let i = choose|i: int| 0 <= i < front.len() && front[i] == slot;
                assert(all[i] == slot);
            }
            assert(all[n - 1] == x);
        }
        let live = live_slots(slots, now, timeout, n - 1);
        let gone = expired_ids(slots, now, timeout, n - 1);
        assert(live.push(x).contains(slot) <==> live.contains(slot) || slot == x) by {
            if live.contains(slot) {
                let i = choose|i: int| 0 <= i < live.len() && live[i] == slot;
                assert(live.push(x)[i] == slot);
            }
            assert(live.push(x)[live.len() as int] == x);
        }
        if is_expired(x.state, now, timeout) {
            assert(gone.push(x.state->id)[gone.len() as int] == x.state->id);
            if gone.contains(slot.state->id) {
                let i = choose|i: int| 0 <= i < gone.len() && gone[i] == slot.state->id;
                assert(gone.push(x.state->id)[i] == slot.state->id);
            }
        }
    }
}

/// Who asks for a session gets it where it is there, waits while it is made, and
/// makes it where there is none; nobody does once no sessions are made any more.
pub proof fn sessions_are_begun_once(r: UdpRuntime, key: UdpSessionKey)
    ensures
        r.closed <==> r.begins(key) == BeginSession::Closed,
        !r.closed ==> {
            &&& r.at(key) is None <==> r.begins(key) == BeginSession::Create
            &&& r.at(key) == Some(SessionState::Creating) <==> r.begins(key) == BeginSession::Wait
            &&& r.at(key) matches Some(SessionState::Ready { id, last_seen_secs: _ })
                ==> r.begins(key) == BeginSession::Reuse(id)
        },
{
}

/// A session that gets no replies ends after so many seconds, or never where none are
/// set.
pub proof fn silent_sessions_have_a_deadline(now_ms: u64, secs: u64)
    ensures
        secs == 0 <==> idle_deadline_of(now_ms, secs) is None,
        secs > 0 && now_ms + 1000 * secs <= u64::MAX ==> idle_deadline_of(now_ms, secs) == Some(
            (now_ms + 1000 * secs) as u64,
        ),
        now_ms + 1000 * secs > u64::MAX ==> idle_deadline_of(now_ms, secs) == Some(
            if now_ms + 86400 * 365 * 30 * 1000 <= u64::MAX {
                (now_ms + 86400 * 365 * 30 * 1000) as u64
            } else {
                u64::MAX
            },
        ),
{
}

} // verus!
