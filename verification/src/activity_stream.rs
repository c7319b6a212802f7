//! When a half-closed connection has been silent for too long.
//!
//! A copy in both directions ends when both have ended. A peer that closes one
//! direction and then says nothing would keep it, and what it holds, for ever. To
//! give up on silence alone would end connections that are merely idle. So the
//! time only runs once one direction has ended, and starts anew with every byte.

use crate::time;
use core::time::Duration;
use vstd::prelude::*;

verus! {

/// How long to sleep at most between two looks at a connection, in milliseconds.
pub const WATCHDOG_STEP_MS: u64 = 30_000;

/// What happened on a connection, by a clock in milliseconds that is never 0.
#[derive(Debug, Clone, Copy, PartialEq, Eq, Structural)]
pub struct Activity {
    /// When a byte last moved.
    pub last_millis: u64,
    /// When the first direction ended; 0 while both are open.
    pub half_closed_millis: u64,
}

/// How long a half-closed connection has been silent: since the later of its last
/// byte and the end of the first direction.
pub open spec fn quiet_of(a: Activity, now: u64) -> Option<u64> {
    if a.half_closed_millis == 0 {
        None
    } else {
        let since = if a.last_millis >= a.half_closed_millis {
            a.last_millis
        } else {
            a.half_closed_millis
        };
        Some(
            if now >= since {
                (now - since) as u64
            } else {
                0
            },
        )
    }
}

impl Activity {
    /// A connection that was opened at `now`.
    pub fn new(now: u64) -> (r: Self)
        ensures
            r == (Activity { last_millis: now, half_closed_millis: 0 }),
    {
        Activity { last_millis: now, half_closed_millis: 0 }
    }

    /// Notes that bytes moved.
    pub fn touch(&mut self, now: u64)
        ensures
            *final(self) == (Activity { last_millis: now, ..*old(self) }),
    {
        self.last_millis = now;
    }

    /// Notes that a direction ended. Only the first counts.
    pub fn half_closed(&mut self, now: u64)
        requires
            now != 0,
        ensures
            *final(self) == if old(self).half_closed_millis == 0 {
                Activity { half_closed_millis: now, ..*old(self) }
            } else {
                *old(self)
            },
    {
        if self.half_closed_millis == 0 {
            self.half_closed_millis = now;
        }
    }

    /// Notes a read or a write of so many bytes. None is no activity: the end of a
    /// stream moves nothing.
    pub fn moved(&mut self, bytes: usize, now: u64)
        ensures
            *final(self) == if bytes > 0 {
                Activity { last_millis: now, ..*old(self) }
            } else {
                *old(self)
            },
    {
        if bytes > 0 {
            self.touch(now);
        }
    }

    /// Notes an attempt to end a direction, and whether it went well.
    pub fn shut_down(&mut self, ok: bool, now: u64)
        requires
            now != 0,
        ensures
            *final(self) == if ok && old(self).half_closed_millis == 0 {
                Activity { half_closed_millis: now, ..*old(self) }
            } else {
                *old(self)
            },
    {
        if ok {
            self.half_closed(now);
        }
    }

    /// How long a half-closed connection has been silent, in milliseconds.
    pub fn quiet_millis(&self, now: u64) -> (r: Option<u64>)
        ensures
            r == quiet_of(*self, now),
    {
        if self.half_closed_millis == 0 {
            return None;
        }
        let since = if self.last_millis >= self.half_closed_millis {
            self.last_millis
        } else {
            self.half_closed_millis
        };
        Some(now.saturating_sub(since))
    }

    /// How long a half-closed connection has been silent.
    pub fn quiet_since_half_close(&self, now: u64) -> (r: Option<Duration>)
        ensures
            r == match quiet_of(*self, now) {
                Some(ms) => Some(time::duration_of_millis(ms)),
                None => None::<Duration>,
            },
    {
        match self.quiet_millis(now) {
            Some(ms) => Some(Duration::from_millis(ms)),
            None => None,
        }
    }
}

/// How long to sleep between two looks at a connection.
pub open spec fn watchdog_step_of(quiet_ms: u64) -> u64 {
    if quiet_ms <= WATCHDOG_STEP_MS {
        quiet_ms
    } else {
        WATCHDOG_STEP_MS
    }
}

/// How long to sleep between two looks at a connection that may be silent for so
/// long: no longer than that.
pub fn watchdog_step(quiet_ms: u64) -> (r: u64)
    ensures
        r == watchdog_step_of(quiet_ms),
{
    if quiet_ms <= WATCHDOG_STEP_MS {
        quiet_ms
    } else {
        WATCHDOG_STEP_MS
    }
}

/// A connection is given up: a direction ended, and nothing moved for so long.
pub open spec fn is_given_up(a: Activity, quiet_ms: u64, now: u64) -> bool {
    quiet_of(a, now) matches Some(silent) && silent >= quiet_ms
}

/// Whether a connection is given up.
pub fn half_close_watchdog(activity: &Activity, quiet_ms: u64, now: u64) -> (r: bool)
    ensures
        r == is_given_up(*activity, quiet_ms, now),
{
    match activity.quiet_millis(now) {
        Some(silent) => silent >= quiet_ms,
        None => false,
    }
}

/// A connection of which both directions are open is never given up.
pub proof fn open_connections_are_kept(a: Activity, quiet_ms: u64, now: u64)
    requires
        a.half_closed_millis == 0,
    ensures
        !is_given_up(a, quiet_ms, now),
{
}

/// A byte that moves at `now` keeps a connection for the whole time again.
pub proof fn every_byte_starts_the_time_anew(a: Activity, quiet_ms: u64, now: u64, later: u64)
    requires
        now <= later,
        later - now < quiet_ms,
    ensures
        !is_given_up(Activity { last_millis: now, ..a }, quiet_ms, later),
{
}

/// A connection that is half-closed and silent is given up, at most one step
/// after its time has passed.
pub proof fn silent_connections_are_given_up(a: Activity, quiet_ms: u64, wake: u64)
    requires
        a.half_closed_millis != 0,
        a.last_millis + quiet_ms <= wake,
        a.half_closed_millis + quiet_ms <= wake,
    ensures
        is_given_up(a, quiet_ms, wake),
        watchdog_step_of(quiet_ms) <= WATCHDOG_STEP_MS,
{
}

/// A half-closed connection has been silent since its last byte or since the end of
/// its first direction, whichever was later.
pub proof fn silence_is_counted_from_the_last_event(a: Activity, now: u64)
    requires
        a.half_closed_millis != 0,
        now >= a.last_millis,
        now >= a.half_closed_millis,
    ensures
        quiet_of(a, now) is Some,
        a.last_millis >= a.half_closed_millis ==> quiet_of(a, now)->0 + a.last_millis == now,
        a.last_millis <= a.half_closed_millis ==> quiet_of(a, now)->0 + a.half_closed_millis == now,
{
}

/// Between two looks at a connection nobody sleeps longer than thirty seconds, nor
/// longer than the connection may be silent, but as long as that allows.
pub proof fn looks_are_frequent(quiet_ms: u64)
    ensures
        watchdog_step_of(quiet_ms) <= quiet_ms,
        watchdog_step_of(quiet_ms) <= 30_000,
        watchdog_step_of(quiet_ms) == quiet_ms || watchdog_step_of(quiet_ms) == 30_000,
{
}

} // verus!
