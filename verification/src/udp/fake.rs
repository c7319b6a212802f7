//! The sockets that answer in the name of other addresses.

use crate::net::SocketAddr;
use crate::udp::session;
use crate::udp::session::{addr_code, AddrCode};
use dashmap::DashMap;
use std::hash::RandomState;
use vstd::prelude::*;

verus! {

/// What sockets are told apart by: the address they send from, and their mark.
#[derive(Debug, Clone, Copy, PartialEq, Eq, Structural)]
pub struct FakeUdpKey {
    pub src_addr: SocketAddr,
    pub fwmark: u32,
}

/// A key as numbers.
pub type FakeCode = (AddrCode, u32);

/// A socket, by its number, and when it was last used.
#[derive(Debug, Clone, Copy, PartialEq, Eq, Structural)]
pub struct FakeUdpEntry {
    pub socket: u64,
    pub last_used_secs: u64,
}

pub open spec fn fake_code_of(k: FakeUdpKey) -> FakeCode {
    (session::addr_code_of(k.src_addr), k.fwmark)
}

fn fake_code(k: FakeUdpKey) -> (r: FakeCode)
    ensures
        r == fake_code_of(k),
{
    (addr_code(k.src_addr), k.fwmark)
}

/// The sockets in a map, by their keys.
pub uninterp spec fn fakes_in(m: DashMap<FakeCode, FakeUdpEntry, RandomState>) -> Map<
    FakeCode,
    FakeUdpEntry,
>;

/// The map of no sockets.
pub open spec fn no_fakes() -> Map<FakeCode, FakeUdpEntry> {
    Map::empty()
}

/// `dashmap::DashMap::new`: an empty map.
#[verifier::external_body]
fn new_map() -> (r: DashMap<FakeCode, FakeUdpEntry, RandomState>)
    ensures
        fakes_in(r) == no_fakes(),
{
    DashMap::new()
}

/// `dashmap::DashMap::get`: the value for a key, if there is one.
#[verifier::external_body]
fn get_from(m: &DashMap<FakeCode, FakeUdpEntry, RandomState>, key: FakeCode) -> (r: Option<
    FakeUdpEntry,
>)
    ensures
        r == if fakes_in(*m).dom().contains(key) {
            Some(fakes_in(*m)[key])
        } else {
            None
        },
{
    m.get(&key).map(|e| *e.value())
}

/// `dashmap::DashMap::insert`: the value stands for the key, in place of what was
/// there.
#[verifier::external_body]
fn insert_in(m: &mut DashMap<FakeCode, FakeUdpEntry, RandomState>, key: FakeCode, value: FakeUdpEntry)
    ensures
        fakes_in(*final(m)) == fakes_in(*old(m)).insert(key, value),
{
    m.insert(key, value);
}

/// `dashmap::DashMap::remove`: takes out the value for a key.
#[verifier::external_body]
fn remove_from(m: &mut DashMap<FakeCode, FakeUdpEntry, RandomState>, key: FakeCode)
    ensures
        fakes_in(*final(m)) == fakes_in(*old(m)).remove(key),
{
    m.remove(&key);
}

/// A list has each entry of a map once.
pub open spec fn lists_fakes(m: Map<FakeCode, FakeUdpEntry>, list: Seq<(FakeCode, FakeUdpEntry)>) -> bool {
    &&& forall|i: int|
        0 <= i < list.len() ==> m.dom().contains((#[trigger] list[i]).0) && list[i].1
            == m[list[i].0]
    &&& forall|k: FakeCode| #[trigger]
        m.dom().contains(k) ==> exists|i: int| 0 <= i < list.len() && (#[trigger] list[i]).0 == k
    &&& forall|i: int, j: int|
        #![trigger list[i], list[j]]
        0 <= i < j < list.len() ==> list[i].0 != list[j].0
}

/// `dashmap::DashMap::iter`: comes by each entry once, in some order.
#[verifier::external_body]
fn entries_in(m: &DashMap<FakeCode, FakeUdpEntry, RandomState>) -> (r: Vec<(FakeCode, FakeUdpEntry)>)
    ensures
        lists_fakes(fakes_in(*m), r@),
{
    m.iter().map(|e| (*e.key(), *e.value())).collect()
}

/// What a look for a socket gives.
#[derive(Debug, Clone, Copy, PartialEq, Eq, Structural)]
pub enum FakeLookup {
    /// No sockets are given out any more.
    Closed,
    /// There is one.
    Found(u64),
    /// One has to be made.
    Make,
}

/// The sockets that are open.
pub struct FakeUdpManager {
    pub sockets: DashMap<FakeCode, FakeUdpEntry, RandomState>,
    pub closed: bool,
}

impl View for FakeUdpManager {
    type V = Map<FakeCode, FakeUdpEntry>;

    open spec fn view(&self) -> Map<FakeCode, FakeUdpEntry> {
        fakes_in(self.sockets)
    }
}

/// A socket was used within the time.
pub open spec fn is_alive(e: FakeUdpEntry, now: u64, timeout_secs: u64) -> bool {
    now - e.last_used_secs < timeout_secs && 0 < timeout_secs
}

/// The sockets that were used within the time.
pub open spec fn alive_only(m: Map<FakeCode, FakeUdpEntry>, now: u64, timeout_secs: u64) -> Map<
    FakeCode,
    FakeUdpEntry,
> {
    Map::new(
        |k: FakeCode| m.dom().contains(k) && is_alive(m[k], now, timeout_secs),
        |k: FakeCode| m[k],
    )
}

impl FakeUdpManager {
    /// No sockets.
    pub fn new() -> (r: Self)
        ensures
            r@ == no_fakes(),
            !r.closed,
    {
        FakeUdpManager { sockets: new_map(), closed: false }
    }

    /// Looks for a socket, which counts as a use.
    pub fn lookup(&mut self, key: FakeUdpKey, now: u64) -> (r: FakeLookup)
        ensures
            final(self).closed == old(self).closed,
            old(self).closed ==> r == FakeLookup::Closed && final(self)@ == old(self)@,
            !old(self).closed ==> if old(self)@.dom().contains(fake_code_of(key)) {
                let e = old(self)@[fake_code_of(key)];
                &&& r == FakeLookup::Found(e.socket)
                &&& final(self)@ == old(self)@.insert(
                    fake_code_of(key),
                    FakeUdpEntry { socket: e.socket, last_used_secs: now },
                )
            } else {
                r == FakeLookup::Make && final(self)@ == old(self)@
            },
    {
        if self.closed {
            return FakeLookup::Closed;
        }
        let code = fake_code(key);
        match get_from(&self.sockets, code) {
            Some(e) => {
                insert_in(
                    &mut self.sockets,
                    code,
                    FakeUdpEntry { socket: e.socket, last_used_secs: now },
                );
                FakeLookup::Found(e.socket)
            },
            None => FakeLookup::Make,
        }
    }

    /// Keeps a socket that was made. Where there is one already that stays, and
    /// is the result. Nothing is kept once no sockets are given out any more.
    pub fn keep(&mut self, key: FakeUdpKey, socket: u64, now: u64) -> (r: Option<u64>)
        ensures
            final(self).closed == old(self).closed,
            old(self).closed ==> r is None && final(self)@ == old(self)@,
            !old(self).closed ==> {
                let kept = if old(self)@.dom().contains(fake_code_of(key)) {
                    old(self)@[fake_code_of(key)].socket
                } else {
                    socket
                };
                &&& r == Some(kept)
                &&& final(self)@ == old(self)@.insert(
                    fake_code_of(key),
                    FakeUdpEntry { socket: kept, last_used_secs: now },
                )
            },
    {
        if self.closed {
            return None;
        }
        let code = fake_code(key);
        let kept = match get_from(&self.sockets, code) {
            Some(e) => e.socket,
            None => socket,
        };
        insert_in(
            &mut self.sockets,
            code,
            FakeUdpEntry { socket: kept, last_used_secs: now },
        );
        Some(kept)
    }

    /// Lets go of the sockets that were not used within the time, and says which.
    pub fn cleanup_expired(&mut self, now: u64, timeout_secs: u64) -> (r: Vec<u64>)
        ensures
            final(self).closed == old(self).closed,
            final(self)@ == alive_only(old(self)@, now, timeout_secs),
            forall|s: u64| #[trigger]
                r@.contains(s) <==> exists|k: FakeCode|
                    old(self)@.dom().contains(k) && (#[trigger] old(self)@[k]).socket == s
                        && !is_alive(old(self)@[k], now, timeout_secs),
    {
        let ghost start = self@;
        let list = entries_in(&self.sockets);
        let mut gone: Vec<u64> = Vec::new();
        let mut i: usize = 0;
        while i < list.len()
            invariant
                i <= list@.len(),
                self.closed == old(self).closed,
                lists_fakes(start, list@),
                forall|k: FakeCode| #[trigger]
                    self@.dom().contains(k) <==> (start.dom().contains(k) && forall|j: int|
                        0 <= j < i && (#[trigger] list@[j]).0 == k ==> is_alive(
                            list@[j].1,
                            now,
                            timeout_secs,
                        )),
                forall|k: FakeCode| #[trigger] self@.dom().contains(k) ==> self@[k] == start[k],
                forall|s: u64| #[trigger]
                    gone@.contains(s) <==> exists|j: int|
                        0 <= j < i && (#[trigger] list@[j]).1.socket == s && !is_alive(
                            list@[j].1,
                            now,
                            timeout_secs,
                        ),
            decreases list@.len() - i,
        {
            let (code, e) = list[i];
            let ghost before = self@;
            let ghost was = gone@;
            if !(now.saturating_sub(e.last_used_secs) < timeout_secs) {
                remove_from(&mut self.sockets, code);
                gone.push(e.socket);
                proof {
                    lemma_push_contains(was, e.socket);
                }
            }
            proof {
                assert forall|k: FakeCode| #[trigger] self@.dom().contains(k) <==> (
                start.dom().contains(k) && forall|j: int|
                    0 <= j < i + 1 && (#[trigger] list@[j]).0 == k ==> is_alive(
                        list@[j].1,
                        now,
                        timeout_secs,
                    )) by {
                    if k == code {
                        assert(list@[i as int].0 == k);
                    }
                    if before.dom().contains(k) && k != code {
                        assert forall|j: int|
                            0 <= j < i + 1 && (#[trigger] list@[j]).0 == k implies is_alive(
                            list@[j].1,
                            now,
                            timeout_secs,
                        ) by {
                            assert(j < i);
                        }
                    }
                    if k == code && is_alive(e, now, timeout_secs) {
                        assert forall|j: int| 0 <= j < i && (#[trigger] list@[j]).0 == k implies is_alive(
                            list@[j].1,
                            now,
                            timeout_secs,
                        ) by {
                            assert(list@[j].0 != list@[i as int].0);
                        }
                    }
                }
                assert forall|s: u64| #[trigger] gone@.contains(s) <==> exists|j: int|
                    0 <= j < i + 1 && (#[trigger] list@[j]).1.socket == s && !is_alive(
                        list@[j].1,
                        now,
                        timeout_secs,
                    ) by {
                    if was.contains(s) {
                        let j = choose|j: int|
                            0 <= j < i && (#[trigger] list@[j]).1.socket == s && !is_alive(
                                list@[j].1,
                                now,
                                timeout_secs,
                            );
                        assert(0 <= j < i + 1);
                    }
                    if !is_alive(e, now, timeout_secs) && s == e.socket {
                        assert(list@[i as int].1.socket == s);
                    }
                }
            }
            i += 1;
        }
        proof {
            assert forall|k: FakeCode| self@.dom().contains(k) <==> (start.dom().contains(k)
                && is_alive(start[k], now, timeout_secs)) by {
                if start.dom().contains(k) {
                    let j = choose|j: int| 0 <= j < list@.len() && (#[trigger] list@[j]).0 == k;
                    assert(list@[j].1 == start[k]);
                    assert forall|q: int|
                        0 <= q < i && (#[trigger] list@[q]).0 == k && is_alive(
                            start[k],
                            now,
                            timeout_secs,
                        ) implies is_alive(list@[q].1, now, timeout_secs) by {
                        assert(list@[q].1 == start[k]);
                    }
                }
            }
            assert(self@ =~= alive_only(start, now, timeout_secs));
            assert forall|s: u64| #[trigger] gone@.contains(s) <==> exists|k: FakeCode|
                start.dom().contains(k) && (#[trigger] start[k]).socket == s && !is_alive(
                    start[k],
                    now,
                    timeout_secs,
                ) by {
                if gone@.contains(s) {
                    let j = choose|j: int|
                        0 <= j < i && (#[trigger] list@[j]).1.socket == s && !is_alive(
                            list@[j].1,
                            now,
                            timeout_secs,
                        );
                    assert(start.dom().contains(list@[j].0));
                    assert(start[list@[j].0].socket == s);
                }
                if exists|k: FakeCode|
                    start.dom().contains(k) && (#[trigger] start[k]).socket == s && !is_alive(
                        start[k],
                        now,
                        timeout_secs,
                    ) {
                    let k = choose|k: FakeCode|
                        start.dom().contains(k) && (#[trigger] start[k]).socket == s && !is_alive(
                            start[k],
                            now,
                            timeout_secs,
                        );
                    let j = choose|j: int| 0 <= j < list@.len() && (#[trigger] list@[j]).0 == k;
                    assert(list@[j].1 == start[k]);
                }
            }
        }
        gone
    }

    /// Lets go of all sockets, and gives out none any more.
    pub fn close(&mut self)
        ensures
            final(self).closed,
            final(self)@ == no_fakes(),
    {
        self.closed = true;
        self.sockets = new_map();
    }
}

proof fn lemma_push_contains(v: Seq<u64>, x: u64)
    ensures
        forall|s: u64| #[trigger] v.push(x).contains(s) <==> (v.contains(s) || s == x),
{
    let more = v.push(x);
    assert forall|s: u64| #[trigger] more.contains(s) <==> (v.contains(s) || s == x) by {
        if more.contains(s) {
            let i = choose|i: int| 0 <= i < more.len() && more[i] == s;
            if i < v.len() {
                assert(v[i] == s);
            }
        }
        if v.contains(s) {
            let i = choose|i: int| 0 <= i < v.len() && v[i] == s;
            assert(more[i] == s);
        }
        if s == x {
            assert(more[v.len() as int] == s);
        }
    }
}

/// Sockets for different sources or marks are different sockets.
pub proof fn codes_tell_sockets_apart(a: FakeUdpKey, b: FakeUdpKey)
    ensures
        fake_code_of(a) == fake_code_of(b) <==> a == b,
{
}

/// A socket is let go of once it was not used for the time, and not before; the
/// others stay as they are.
pub proof fn unused_sockets_are_let_go(
    m: Map<FakeCode, FakeUdpEntry>,
    now: u64,
    timeout: u64,
    key: FakeCode,
)
    requires
        m.dom().contains(key),
        timeout > 0,
    ensures
        alive_only(m, now, timeout).dom().contains(key) <==> now < m[key].last_used_secs + timeout,
        now < m[key].last_used_secs + timeout ==> alive_only(m, now, timeout)[key] == m[key],
{
}

} // verus!
