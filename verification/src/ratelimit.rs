//! Per-identifier request throttling with burst detection and timed
//! blocking. Each identifier owns a rolling window counter; past the
//! burst threshold requests are denied without penalty, past the hard
//! maximum the identifier is blocked for a fixed duration. Given the
//! same call instants, the allow/deny outcomes are fully determined.

use vstd::prelude::*;

use crate::kvmap::StrMap;

verus! {

/// Hard per-window request maximum; beyond it the identifier is blocked.
pub const MAX_REQUESTS_PER_WINDOW: u64 = 100;

/// Soft threshold; beyond it requests are denied without blocking.
pub const BURST_THRESHOLD: u64 = 50;

/// Length of the rolling window, in seconds.
pub const WINDOW_SECONDS: u64 = 60;

/// How long a blocked identifier stays blocked, in seconds.
pub const BLOCK_SECONDS: u64 = 300;

/// One rate-limit entry: the request count in the current window, the
/// window's start, and the block state.
#[derive(Clone, Copy, PartialEq, Eq, Structural, Debug)]
pub struct ClientState {
    pub count: u64,
    pub window_start: u64,
    pub blocked: bool,
    pub block_start: u64,
}

/// The entry a first-ever request at `now` starts from.
pub open spec fn fresh_entry(now: u64) -> ClientState {
    ClientState { count: 0, window_start: now, blocked: false, block_start: 0 }
}

/// A count one higher, capped at the integer's ceiling.
pub open spec fn bump(c: u64) -> u64 {
    if c == u64::MAX {
        c
    } else {
        (c + 1) as u64
    }
}

/// One observation of a request at `now`: the entry afterwards and
/// whether the request is allowed.
pub open spec fn rl_step(e: ClientState, now: u64) -> (ClientState, bool) {
    if e.blocked && now < e.block_start + BLOCK_SECONDS {
        (e, false)
    } else {
        let base = if e.blocked || now > e.window_start + WINDOW_SECONDS {
            fresh_entry(now)
        } else {
            e
        };
        let counted = ClientState { count: bump(base.count), ..base };
        if counted.count > MAX_REQUESTS_PER_WINDOW {
            (
                ClientState { blocked: true, block_start: now, ..counted },
                false,
            )
        } else if counted.count > BURST_THRESHOLD {
            (counted, false)
        } else {
            (counted, true)
        }
    }
}

/// The entry consulted for identifier `k`: the stored one, or a fresh
/// one when `k` was never seen.
pub open spec fn entry_or_fresh(m: Map<Seq<char>, ClientState>, k: Seq<char>, now: u64) -> ClientState {
    if m.contains_key(k) {
        m[k]
    } else {
        fresh_entry(now)
    }
}

/// A count a well-formed entry can hold: it exceeds the hard maximum
/// only in the step that blocks it, and then only by one.
pub open spec fn entry_wf(e: ClientState) -> bool {
    e.count <= MAX_REQUESTS_PER_WINDOW + 1 && (e.count > MAX_REQUESTS_PER_WINDOW ==> e.blocked)
}

/// Tracks rate limits per identifier (an IP or a user name).
pub struct RateLimiter {
    clients: StrMap<ClientState>,
}

impl RateLimiter {
    /// The rate-limit table.
    pub closed spec fn table(&self) -> Map<Seq<char>, ClientState> {
        self.clients@
    }

    /// An empty rate limiter: no identifier has been seen.
    pub fn new() -> (r: RateLimiter)
        ensures
            r.table() == Map::<Seq<char>, ClientState>::empty(),
    {
        RateLimiter { clients: StrMap::new() }
    }

    /// The stored entry for `identifier`, if any.
    pub fn entry(&self, identifier: &str) -> (r: Option<&ClientState>)
        ensures
            match r {
                Some(e) => self.table().contains_key(identifier@) && *e
                    == self.table()[identifier@],
                None => !self.table().contains_key(identifier@),
            },
    {
        self.clients.get(identifier)
    }

    /// Observes one request from `identifier` at instant `now` and says
    /// whether it is allowed, exactly as `rl_step` prescribes.
    pub fn allow_request(&mut self, identifier: &str, now: u64) -> (r: bool)
        ensures
            r == rl_step(entry_or_fresh(old(self).table(), identifier@, now), now).1,
            final(self).table() == old(self).table().insert(
                identifier@,
                rl_step(entry_or_fresh(old(self).table(), identifier@, now), now).0,
            ),
    {
        let e: ClientState = match self.clients.get(identifier) {
            Some(stored) => *stored,
            None => ClientState { count: 0, window_start: now, blocked: false, block_start: 0 },
        };
        let ghost e0 = e;
        if e.blocked && (BLOCK_SECONDS > u64::MAX - e.block_start || now < e.block_start
            + BLOCK_SECONDS) {
            self.clients.insert(identifier, e);
            return false;
        }
        let base: ClientState = if e.blocked || (WINDOW_SECONDS <= u64::MAX - e.window_start && now
            > e.window_start + WINDOW_SECONDS) {
            ClientState { count: 0, window_start: now, blocked: false, block_start: 0 }
        } else {
            e
        };
        let counted = ClientState {
            count: if base.count == u64::MAX {
                base.count
            } else {
                base.count + 1
            },
            ..base
        };
        if counted.count > MAX_REQUESTS_PER_WINDOW {
            self.clients.insert(
                identifier,
                ClientState { blocked: true, block_start: now, ..counted },
            );
            false
        } else if counted.count > BURST_THRESHOLD {
            self.clients.insert(identifier, counted);
            false
        } else {
            self.clients.insert(identifier, counted);
            true
        }
    }
}

/// A fresh entry is well formed, and one observation keeps an entry well
/// formed: the count never exceeds the hard maximum before the entry is
/// blocked.
pub proof fn lemma_step_preserves_wf(e: ClientState, now: u64)
    requires
        entry_wf(e),
    ensures
        entry_wf(fresh_entry(now)),
        entry_wf(rl_step(e, now).0),
{
}

/// A blocked identifier stays denied, with its entry unchanged, at any
/// instant before its block has lasted the block duration.
pub proof fn lemma_block_holds(e: ClientState, now: u64)
    requires
        e.blocked,
        now < e.block_start + BLOCK_SECONDS,
    ensures
        rl_step(e, now) == (e, false),
{
}

/// The entry after `n` back-to-back requests at the same instant `t` by
/// an identifier first seen at `t`.
pub open spec fn state_after(n: nat, t: u64) -> ClientState
    decreases n,
{
    if n == 0 {
        fresh_entry(t)
    } else {
        rl_step(state_after((n - 1) as nat, t), t).0
    }
}

/// Whether the `n`-th of those requests is allowed.
pub open spec fn outcome_of(n: nat, t: u64) -> bool
    recommends
        n >= 1,
{
    rl_step(state_after((n - 1) as nat, t), t).1
}

/// Back-to-back requests within one window: the count climbs to the
/// hard maximum plus the blocking step and freezes there, the entry is
/// blocked from the request after the hard maximum on, and exactly the
/// first `BURST_THRESHOLD` requests are allowed.
pub proof fn lemma_burst_outcomes(n: nat, t: u64)
    ensures
        state_after(n, t).window_start == t,
        state_after(n, t).count == if n <= MAX_REQUESTS_PER_WINDOW + 1 {
            n as u64
        } else {
            (MAX_REQUESTS_PER_WINDOW + 1) as u64
        },
        state_after(n, t).blocked <==> n > MAX_REQUESTS_PER_WINDOW,
        state_after(n, t).blocked ==> state_after(n, t).block_start == t,
        n >= 1 ==> (outcome_of(n, t) <==> n <= BURST_THRESHOLD),
    decreases n,
{
    if n > 0 {
        lemma_burst_outcomes((n - 1) as nat, t);
    }
}

} // verus!
