//! Per-host circuit breaker for the request path.
//!
//! Each third-party host gets a `Breaker`. After `FAILURE_THRESHOLD`
//! consecutive failed probes it trips: the host is skipped (callers may only
//! use what they already cached) until a cooldown passes, then exactly one
//! request at a time is let through as a trial. A success closes it again.
//!
//! Instants are milliseconds on a monotonic clock chosen by the caller.
use vstd::prelude::*;

verus! {

/// Consecutive failed probes before an instance is dropped from the fan-out.
pub const FAILURE_THRESHOLD: u32 = 3;

/// First cooldown of a tripped host; it doubles on every further trip.
pub const BASE_COOLDOWN_MS: u64 = 15_000;

/// Longest cooldown.
pub const MAX_COOLDOWN_MS: u64 = 300_000;

/// How long a claimed half-open trial is honoured before another request may
/// claim it (its claimant may never report back).
pub const TRIAL_TIMEOUT_MS: u64 = 10_000;

/// What a caller is allowed to do with an instance right now.
#[derive(Clone, Copy)]
pub enum Permit {
    /// Query it, giving up after this long.
    Fetch(core::time::Duration),
    /// The instance is tripped: use what is cached, put nothing on the wire.
    CachedOnly,
}

/// Breaker state of one host.
#[derive(Clone, Copy)]
pub struct Breaker {
    pub consecutive_failures: u32,
    /// Trips without a success since; the exponent of the cooldown backoff.
    pub trips: u32,
    /// Set while tripped; once in the past the host is half-open.
    pub open_until: Option<u64>,
    /// Deadline of the outstanding half-open trial, if one is claimed.
    pub trial_until: Option<u64>,
}

/// `a + b`, saturating at `u64::MAX`.
pub open spec fn sat_add(a: u64, b: u64) -> u64 {
    if a + b <= u64::MAX {
        (a + b) as u64
    } else {
        u64::MAX
    }
}

/// `2^n` for small `n`.
pub open spec fn pow2(n: nat) -> nat
    decreases n,
{
    if n == 0 {
        1
    } else {
        2 * pow2((n - 1) as nat)
    }
}

/// `BASE_COOLDOWN_MS * 2^min(trips, 5)`, capped at `MAX_COOLDOWN_MS`.
pub open spec fn cooldown_of(trips: u32) -> u64 {
    let e: nat = if trips < 5 {
        trips as nat
    } else {
        5
    };
    let raw = BASE_COOLDOWN_MS * pow2(e);
    if raw < MAX_COOLDOWN_MS {
        raw as u64
    } else {
        MAX_COOLDOWN_MS
    }
}

impl Breaker {
    /// Tripped and still cooling down at `now`.
    pub open spec fn is_cooling(self, now: u64) -> bool {
        match self.open_until {
            Some(until) => now < until,
            None => false,
        }
    }

    /// A half-open trial is claimed and has not expired at `now`.
    pub open spec fn trial_pending(self, now: u64) -> bool {
        match self.trial_until {
            Some(until) => now < until,
            None => false,
        }
    }

    /// Whether `permit` at `now` lets a request through.
    pub open spec fn lets_through(self, now: u64) -> bool {
        match self.open_until {
            None => true,
            Some(_) => !self.is_cooling(now) && !self.trial_pending(now),
        }
    }

    /// State after `permit` at `now`: letting a request through a tripped
    /// breaker claims the trial slot.
    pub open spec fn after_permit(self, now: u64) -> Breaker {
        if self.open_until is Some && self.lets_through(now) {
            Breaker { trial_until: Some(sat_add(now, TRIAL_TIMEOUT_MS)), ..self }
        } else {
            self
        }
    }

    /// State after a successful probe: closed, failure count and trial reset,
    /// backoff reset if it had been tripped.
    pub open spec fn after_success(self) -> Breaker {
        Breaker {
            consecutive_failures: 0,
            trips: if self.open_until is Some {
                0
            } else {
                self.trips
            },
            open_until: None,
            trial_until: None,
        }
    }

    /// Whether a failed probe at `now` trips (or re-trips) the breaker: not
    /// while it is already cooling down, and only from the threshold on.
    pub open spec fn failure_trips(self, now: u64) -> bool {
        !self.is_cooling(now) && self.consecutive_failures + 1 >= FAILURE_THRESHOLD
    }

    /// State after a failed probe at `now`.
    pub open spec fn after_failure(self, now: u64) -> Breaker {
        let counted = Breaker {
            consecutive_failures: if self.consecutive_failures < u32::MAX {
                (self.consecutive_failures + 1) as u32
            } else {
                u32::MAX
            },
            trial_until: None,
            ..self
        };
        if self.failure_trips(now) {
            Breaker {
                open_until: Some(sat_add(now, cooldown_of(self.trips))),
                trips: if self.trips < u32::MAX {
                    (self.trips + 1) as u32
                } else {
                    u32::MAX
                },
                ..counted
            }
        } else {
            counted
        }
    }

    /// A closed breaker has no trips to escalate from: what every breaker
    /// reached from `new` through permits, successes and failures satisfies.
    pub open spec fn settled(self) -> bool {
        self.open_until is None ==> self.trips == 0
    }

    /// A host that has never been probed.
    pub fn new() -> (r: Breaker)
        ensures
            r.consecutive_failures == 0,
            r.trips == 0,
            r.open_until is None,
            r.trial_until is None,
            r.settled(),
    {
        Breaker { consecutive_failures: 0, trips: 0, open_until: None, trial_until: None }
    }

    /// Cooldown the next trip starts.
    pub fn cooldown_ms(&self) -> (r: u64)
        ensures
            r == cooldown_of(self.trips),
    {
        let e: u32 = if self.trips < 5 {
            self.trips
        } else {
            5
        };
        proof {
            lemma_pow2_small(e as nat);
        }
        let raw: u64 = BASE_COOLDOWN_MS * (1u64 << e);
        if raw < MAX_COOLDOWN_MS {
            raw
        } else {
            MAX_COOLDOWN_MS
        }
    }

    /// Decides whether the host may be queried at `now`, giving up after
    /// `timeout`; claims the half-open trial slot as a side effect.
    pub fn permit(&mut self, now: u64, timeout: core::time::Duration) -> (r: Permit)
        ensures
            *final(self) == old(self).after_permit(now),
            old(self).lets_through(now) ==> r == Permit::Fetch(timeout),
            !old(self).lets_through(now) ==> r is CachedOnly,
    {
        match self.open_until {
            Some(until) => {
                if now < until {
                    Permit::CachedOnly
                } else {
                    let pending = match self.trial_until {
                        Some(t) => now < t,
                        None => false,
                    };
                    if pending {
                        Permit::CachedOnly
                    } else {
                        self.trial_until = Some(now.saturating_add(TRIAL_TIMEOUT_MS));
                        Permit::Fetch(timeout)
                    }
                }
            },
            None => Permit::Fetch(timeout),
        }
    }

    /// Records a successful probe; returns whether the host had been tripped
    /// (and is now back in the fan-out).
    pub fn record_success(&mut self) -> (was_open: bool)
        ensures
            *final(self) == old(self).after_success(),
            was_open == old(self).open_until is Some,
    {
        self.consecutive_failures = 0;
        self.trial_until = None;
        let was_open = self.open_until.is_some();
        self.open_until = None;
        if was_open {
            self.trips = 0;
        }
        was_open
    }

    /// Records a failed probe at `now`; returns the cooldown when this
    /// failure trips the breaker.
    pub fn record_failure(&mut self, now: u64) -> (tripped: Option<u64>)
        ensures
            *final(self) == old(self).after_failure(now),
            tripped == if old(self).failure_trips(now) {
                Some(cooldown_of(old(self).trips))
            } else {
                None::<u64>
            },
    {
        self.consecutive_failures = self.consecutive_failures.saturating_add(1);
        self.trial_until = None;
        let cooling = match self.open_until {
            Some(until) => now < until,
            None => false,
        };
        if cooling {
            return None;
        }
        if self.consecutive_failures < FAILURE_THRESHOLD {
            return None;
        }
        let cooldown = self.cooldown_ms();
        self.open_until = Some(now.saturating_add(cooldown));
        self.trips = self.trips.saturating_add(1);
        Some(cooldown)
    }
}

proof fn lemma_pow2_small(e: nat)
    requires
        e <= 5,
    ensures
        pow2(e) == (1u64 << e),
        pow2(e) <= 32,
{
    reveal_with_fuel(pow2, 6);
    assert((1u64 << 0u64) == 1) by (bit_vector);
    assert((1u64 << 1u64) == 2) by (bit_vector);
    assert((1u64 << 2u64) == 4) by (bit_vector);
    assert((1u64 << 3u64) == 8) by (bit_vector);
    assert((1u64 << 4u64) == 16) by (bit_vector);
    assert((1u64 << 5u64) == 32) by (bit_vector);
}

/// A host that is cooling down is never queried, and asking does not change
/// its state.
pub proof fn law_cooling_blocks(b: Breaker, now: u64)
    requires
        b.is_cooling(now),
    ensures
        !b.lets_through(now),
        b.after_permit(now) == b,
{
}

/// Once the cooldown has passed, exactly one request at a time is let
/// through: after one is, every other request before the trial deadline is
/// refused.
pub proof fn law_single_trial(b: Breaker, now: u64, later: u64)
    requires
        b.open_until is Some,
        b.lets_through(now),
        later < sat_add(now, TRIAL_TIMEOUT_MS),
    ensures
        !b.after_permit(now).lets_through(later),
        b.after_permit(now).after_permit(later) == b.after_permit(now),
{
}

/// A success closes the breaker: the host is queried again at any time.
pub proof fn law_success_closes(b: Breaker, now: u64)
    ensures
        b.after_success().lets_through(now),
        b.after_success().consecutive_failures == 0,
{
}

/// From a closed breaker, failures below the threshold never trip it, and the
/// threshold-th consecutive failure does.
pub proof fn law_trips_at_threshold(b: Breaker, t1: u64, t2: u64, t3: u64)
    requires
        b.open_until is None,
        b.consecutive_failures == 0,
    ensures
        b.after_failure(t1).open_until is None,
        b.after_failure(t1).after_failure(t2).open_until is None,
        b.after_failure(t1).after_failure(t2).after_failure(t3).open_until == Some(
            sat_add(t3, cooldown_of(b.trips)),
        ),
        b.after_failure(t1).after_failure(t2).after_failure(t3).lets_through(t3) == (
        t3 == u64::MAX),
{
    assert(BASE_COOLDOWN_MS <= cooldown_of(b.trips)) by {
        lemma_cooldown_bounds(b.trips);
    }
}

/// Failures of probes still in flight when the breaker tripped neither extend
/// its cooldown nor escalate its backoff.
pub proof fn law_in_flight_failure_no_extend(b: Breaker, now: u64)
    requires
        b.is_cooling(now),
    ensures
        b.after_failure(now).open_until == b.open_until,
        b.after_failure(now).trips == b.trips,
{
}

/// A failed trial re-trips the breaker with the next, longer cooldown.
pub proof fn law_failed_trial_escalates(b: Breaker, now: u64)
    requires
        b.open_until is Some,
        b.lets_through(now),
        b.consecutive_failures >= FAILURE_THRESHOLD,
        b.trips < 5,
    ensures
        b.after_permit(now).after_failure(now).open_until == Some(
            sat_add(now, cooldown_of(b.trips)),
        ),
        b.after_permit(now).after_failure(now).trips == b.trips + 1,
        cooldown_of(b.trips) <= cooldown_of((b.trips + 1) as u32),
{
    lemma_cooldown_mono(b.trips, (b.trips + 1) as u32);
}

/// From a closed breaker with no failures, one or two failures leave the
/// host queryable at any time, and a third trips it: from then on every
/// request within the base cooldown is refused (short of the clock's last
/// millisecond, where the saturated deadline lets one through).
pub proof fn law_third_failure_blocks(b: Breaker, t1: u64, t2: u64, t3: u64, now: u64)
    requires
        b.open_until is None,
        b.consecutive_failures == 0,
        t3 <= now,
        now < t3 + BASE_COOLDOWN_MS,
        now < u64::MAX,
    ensures
        b.after_failure(t1).lets_through(now),
        b.after_failure(t1).after_failure(t2).lets_through(now),
        !b.after_failure(t1).after_failure(t2).after_failure(t3).lets_through(now),
{
    law_trips_at_threshold(b, t1, t2, t3);
    lemma_cooldown_bounds(b.trips);
}

/// Permits, successes and failures keep a breaker settled.
pub proof fn law_settled_is_kept(b: Breaker, now: u64)
    requires
        b.settled(),
    ensures
        b.after_permit(now).settled(),
        b.after_success().settled(),
        b.after_failure(now).settled(),
{
}

/// A success restarts the breaker from scratch: the host is queryable, its
/// failure count is zero, it takes three new consecutive failures to trip it
/// again, and that trip cools down for the base `BASE_COOLDOWN_MS`.
pub proof fn law_success_restarts(b: Breaker, now: u64, t1: u64, t2: u64, t3: u64)
    requires
        b.settled(),
    ensures
        b.after_success().lets_through(now),
        b.after_success().consecutive_failures == 0,
        b.after_success().trips == 0,
        b.after_success().after_failure(t1).open_until is None,
        b.after_success().after_failure(t1).after_failure(t2).open_until is None,
        b.after_success().after_failure(t1).after_failure(t2).after_failure(t3).open_until == Some(
            sat_add(t3, BASE_COOLDOWN_MS),
        ),
{
    let c = b.after_success();
    law_trips_at_threshold(c, t1, t2, t3);
    assert(pow2(0) == 1);
    assert(cooldown_of(0) == BASE_COOLDOWN_MS);
}

/// The cooldown lies between `BASE_COOLDOWN_MS` and `MAX_COOLDOWN_MS`.
pub proof fn lemma_cooldown_bounds(trips: u32)
    ensures
        BASE_COOLDOWN_MS <= cooldown_of(trips) <= MAX_COOLDOWN_MS,
{
    let e: nat = if trips < 5 {
        trips as nat
    } else {
        5
    };
    lemma_pow2_small(e);
    lemma_pow2_pos(e);
}

/// The cooldown never shrinks as trips accumulate.
pub proof fn lemma_cooldown_mono(a: u32, b: u32)
    requires
        a <= b,
    ensures
        cooldown_of(a) <= cooldown_of(b),
{
    let ea: nat = if a < 5 {
        a as nat
    } else {
        5
    };
    let eb: nat = if b < 5 {
        b as nat
    } else {
        5
    };
    lemma_pow2_mono(ea, eb);
}

proof fn lemma_pow2_pos(e: nat)
    ensures
        pow2(e) >= 1,
    decreases e,
{
    if e > 0 {
        lemma_pow2_pos((e - 1) as nat);
    }
}

proof fn lemma_pow2_mono(a: nat, b: nat)
    requires
        a <= b,
    ensures
        pow2(a) <= pow2(b),
    decreases b,
{
    if a < b {
        lemma_pow2_mono(a, (b - 1) as nat);
        lemma_pow2_pos((b - 1) as nat);
    }
}

} // verus!
