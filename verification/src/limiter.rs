//! Sliding-window admission limiter.
//!
//! One `RateLimiter` value is shared (behind a lock, owned by the caller) by
//! every concurrent chunk task. Each admission attempt evaluates three
//! quota dimensions — requests per minute, requests per day, tokens per
//! minute — against an integer clock in whole seconds. The per-minute
//! dimensions share the two window timestamps and follow the same
//! window-reset rule; the per-day dimension is a stub that always passes but
//! keeps the call shape a real daily counter would need.
//!
//! Admission across contending tasks is not first-come-first-served: the
//! task that evaluates first in a cycle wins it, and a task can starve under
//! sustained contention. That is an accepted tradeoff for simplicity, not
//! something to fix silently.

use vstd::prelude::*;

verus! {

/// Length of the sliding window, in seconds.
pub const WINDOW_SECS: u64 = 60;

/// Shared limiter state: two counters over one pair of window timestamps,
/// plus the configured ceilings (immutable after construction).
pub struct RateLimiter {
    /// Requests counted against the current window.
    pub req_window: usize,
    /// Start of the current window, in seconds.
    pub window_start: u64,
    /// The instant bookkeeping last advanced past a gap, in seconds.
    pub last_request: u64,
    /// Token estimates counted against the current window.
    pub token_window: usize,
    /// Ceiling on requests per minute.
    pub rpm: usize,
    /// Ceiling on requests per day.
    pub rpd: usize,
    /// Ceiling on token estimates per minute.
    pub tpm: usize,
}

impl RateLimiter {
    /// The window fields only ever move forward: the window never starts
    /// after the last bookkeeping instant.
    pub open spec fn wf(self) -> bool {
        self.window_start <= self.last_request
    }

    /// A gap: more than a full window has passed since bookkeeping last
    /// advanced. The counter restarts from this request's own usage and
    /// admission is granted unconditionally.
    pub open spec fn gap_elapsed(self, now: u64) -> bool {
        now - self.last_request > WINDOW_SECS
    }

    /// The current window is over: it rolls forward and the counter
    /// restarts from this request's own usage.
    pub open spec fn window_elapsed(self, now: u64) -> bool {
        now - self.window_start > WINDOW_SECS
    }

    /// State after the per-minute request check ran at instant `now`.
    pub open spec fn spec_rpm_state(self, now: u64) -> RateLimiter {
        if self.gap_elapsed(now) {
            RateLimiter { req_window: 1, last_request: now, ..self }
        } else if self.window_elapsed(now) {
            RateLimiter { req_window: 1, window_start: self.last_request, ..self }
        } else {
            RateLimiter { req_window: (self.req_window + 1) as usize, ..self }
        }
    }

    /// Whether the per-minute request check at instant `now` admits:
    /// unconditionally after a gap, otherwise iff the incremented running
    /// count stays within the ceiling.
    pub open spec fn spec_rpm_allowed(self, now: u64) -> bool {
        if self.gap_elapsed(now) {
            true
        } else {
            self.spec_rpm_state(now).req_window <= self.rpm
        }
    }

    /// State after the per-minute token check ran at instant `now` with an
    /// estimated cost of `tokens`.
    pub open spec fn spec_tpm_state(self, now: u64, tokens: usize) -> RateLimiter {
        if self.gap_elapsed(now) {
            RateLimiter { token_window: tokens, last_request: now, ..self }
        } else if self.window_elapsed(now) {
            RateLimiter { token_window: tokens, window_start: self.last_request, ..self }
        } else {
            RateLimiter { token_window: (self.token_window + tokens) as usize, ..self }
        }
    }

    /// Whether the per-minute token check at instant `now` admits.
    pub open spec fn spec_tpm_allowed(self, now: u64, tokens: usize) -> bool {
        if self.gap_elapsed(now) {
            true
        } else {
            self.spec_tpm_state(now, tokens).token_window <= self.tpm
        }
    }

    /// State after one full admission evaluation: the request check runs
    /// first and the token check runs on its outcome, so after a gap the
    /// request check advances the bookkeeping instant and the token check
    /// then rolls the shared window forward.
    pub open spec fn spec_admit_state(self, now: u64, tokens: usize) -> RateLimiter {
        self.spec_rpm_state(now).spec_tpm_state(now, tokens)
    }

    /// Whether one full admission evaluation at instant `now` admits: all
    /// three dimensions must pass in the same attempt.
    pub open spec fn spec_admit_allowed(self, now: u64, tokens: usize) -> bool {
        self.spec_rpm_allowed(now) && self.spec_rpm_state(now).spec_tpm_allowed(now, tokens)
    }

    /// A fresh limiter: empty counters, both window fields at `now`, the
    /// given ceilings.
    pub fn new(rpm: usize, rpd: usize, tpm: usize, now: u64) -> (r: Self)
        ensures
            r == (RateLimiter {
                req_window: 0,
                window_start: now,
                last_request: now,
                token_window: 0,
                rpm,
                rpd,
                tpm,
            }),
            r.wf(),
    {
        RateLimiter { req_window: 0, window_start: now, last_request: now, token_window: 0, rpm, rpd, tpm }
    }

    /// Requests-per-minute check at instant `now`: applies the window-reset
    /// rule to the request counter and admits iff the running count stays
    /// within `rpm` (unconditionally after a gap).
    pub fn is_allowed_rpm(&mut self, now: u64) -> (r: bool)
        requires
            old(self).wf(),
            now >= old(self).last_request,
            old(self).req_window < usize::MAX,
        ensures
            *final(self) == old(self).spec_rpm_state(now),
            r == old(self).spec_rpm_allowed(now),
            final(self).wf(),
            final(self).last_request <= now,
            final(self).window_start >= old(self).window_start,
            final(self).last_request >= old(self).last_request,
    {
        if now - self.last_request > WINDOW_SECS {
            self.req_window = 1;
            self.last_request = now;
            return true;
        }
        if now - self.window_start > WINDOW_SECS {
            self.window_start = self.last_request;
            self.req_window = 1;
        } else {
            self.req_window = self.req_window + 1;
        }
        self.req_window <= self.rpm
    }

    /// Requests-per-day check: a stub that always passes, kept with the
    /// shape a real daily counter would need so callers stay unchanged if
    /// one is substituted.
    pub fn is_allowed_rpd(&self, _now: u64) -> (r: bool)
        ensures
            r == true,
    {
        true
    }

    /// Tokens-per-minute check at instant `now` for an estimated cost of
    /// `tokens`: applies the window-reset rule to the token counter and
    /// admits iff the running estimate stays within `tpm` (unconditionally
    /// after a gap).
    pub fn is_allowed_tpm(&mut self, now: u64, tokens: usize) -> (r: bool)
        requires
            old(self).wf(),
            now >= old(self).last_request,
            old(self).token_window + tokens <= usize::MAX,
        ensures
            *final(self) == old(self).spec_tpm_state(now, tokens),
            r == old(self).spec_tpm_allowed(now, tokens),
            final(self).wf(),
            final(self).last_request <= now,
            final(self).window_start >= old(self).window_start,
            final(self).last_request >= old(self).last_request,
    {
        if now - self.last_request > WINDOW_SECS {
            self.token_window = tokens;
            self.last_request = now;
            return true;
        }
        if now - self.window_start > WINDOW_SECS {
            self.window_start = self.last_request;
            self.token_window = tokens;
        } else {
            self.token_window = self.token_window + tokens;
        }
        self.token_window <= self.tpm
    }

    /// One full admission evaluation at instant `now`: runs the three
    /// dimension checks in order on the shared state and admits iff all
    /// three pass.
    pub fn evaluate(&mut self, now: u64, tokens: usize) -> (r: bool)
        requires
            old(self).wf(),
            now >= old(self).last_request,
            old(self).req_window < usize::MAX,
            old(self).token_window + tokens <= usize::MAX,
        ensures
            *final(self) == old(self).spec_admit_state(now, tokens),
            r == old(self).spec_admit_allowed(now, tokens),
            final(self).wf(),
            final(self).last_request <= now,
            final(self).window_start >= old(self).window_start,
            final(self).last_request >= old(self).last_request,
    {
        let rpm_ok = self.is_allowed_rpm(now);
        let rpd_ok = self.is_allowed_rpd(now);
        let tpm_ok = self.is_allowed_tpm(now, tokens);
        rpm_ok && rpd_ok && tpm_ok
    }

    /// A whole admission call, attempt by attempt: the first evaluation
    /// that admits ends the call; a call whose every scheduled evaluation
    /// fails is denied.
    pub open spec fn spec_admit_outcome(self, times: Seq<u64>, tokens: usize) -> bool
        decreases times.len(),
    {
        if times.len() == 0 {
            false
        } else if self.spec_admit_allowed(times[0], tokens) {
            true
        } else {
            self.spec_admit_state(times[0], tokens).spec_admit_outcome(times.drop_first(), tokens)
        }
    }

    /// The limiter state once a whole admission call has ended.
    pub open spec fn spec_admit_final(self, times: Seq<u64>, tokens: usize) -> RateLimiter
        decreases times.len(),
    {
        if times.len() == 0 {
            self
        } else if self.spec_admit_allowed(times[0], tokens) {
            self.spec_admit_state(times[0], tokens)
        } else {
            self.spec_admit_state(times[0], tokens).spec_admit_final(times.drop_first(), tokens)
        }
    }

    /// A whole admission call run at the given evaluation instants, one per
    /// attempt (the caller sleeps between them; see `admission_step` for the
    /// pause lengths). Returns whether the call was admitted; a denied call
    /// must be treated as a failed chunk, never retried further.
    pub fn request_admission(&mut self, times: &Vec<u64>, tokens: usize) -> (r: bool)
        requires
            old(self).wf(),
            times@.len() > 0 ==> times@[0] >= old(self).last_request,
            forall|i: int, j: int| 0 <= i < j < times@.len() ==> times@[i] <= times@[j],
            old(self).req_window + times@.len() <= usize::MAX,
            old(self).token_window + times@.len() * tokens <= usize::MAX,
        ensures
            r == old(self).spec_admit_outcome(times@, tokens),
            *final(self) == old(self).spec_admit_final(times@, tokens),
            final(self).wf(),
    {
        let ghost s0 = *self;
        proof {
            assert(times@.skip(0) =~= times@);
        }
        let mut i: usize = 0;
        while i < times.len()
            invariant
                s0 == *old(self),
                0 <= i <= times@.len(),
                self.wf(),
                forall|k: int, m: int| 0 <= k < m < times@.len() ==> times@[k] <= times@[m],
                i < times@.len() ==> times@[i as int] >= self.last_request,
                self.req_window <= s0.req_window + i,
                self.token_window <= s0.token_window + i * tokens,
                s0.req_window + times@.len() <= usize::MAX,
                s0.token_window + times@.len() * tokens <= usize::MAX,
                self.rpm == s0.rpm && self.rpd == s0.rpd && self.tpm == s0.tpm,
                s0.spec_admit_outcome(times@, tokens) == self.spec_admit_outcome(
                    times@.skip(i as int),
                    tokens,
                ),
                s0.spec_admit_final(times@, tokens) == self.spec_admit_final(
                    times@.skip(i as int),
                    tokens,
                ),
            decreases times@.len() - i,
        {
            let now = times[i];
            assert(self.token_window + tokens <= usize::MAX) by {
                assert(i * tokens + tokens == (i + 1) * tokens) by (nonlinear_arith);
                assert((i + 1) * tokens <= times@.len() * tokens) by (nonlinear_arith)
                    requires
                        i + 1 <= times@.len(),
                        tokens >= 0,
                ;
            };
            let ghost pre = *self;
            let allowed = self.evaluate(now, tokens);
            proof {
                assert(times@.skip(i as int).drop_first() =~= times@.skip(i + 1));
                assert(times@.skip(i as int)[0] == times@[i as int]);
                assert(i * tokens + tokens == (i + 1) * tokens) by (nonlinear_arith);
            }
            if allowed {
                proof {
                    assert(pre.spec_admit_outcome(times@.skip(i as int), tokens));
                    assert(pre.spec_admit_final(times@.skip(i as int), tokens)
                        == pre.spec_admit_state(now, tokens));
                }
                return true;
            }
            i = i + 1;
        }
        proof {
            assert(times@.skip(times@.len() as int) =~= Seq::<u64>::empty());
        }
        false
    }
}

/// Ceiling on the number of evaluation attempts in one admission call.
pub const MAX_ATTEMPTS: u32 = 10;

/// Ceiling on one backoff pause, in seconds.
pub const BACKOFF_CAP_SECS: u64 = 60;

/// Two to the `n`th power.
pub open spec fn pow2(n: nat) -> nat
    decreases n,
{
    if n == 0 {
        1
    } else {
        2 * pow2((n - 1) as nat)
    }
}

proof fn lemma_pow2_monotone(a: nat, b: nat)
    requires
        a <= b,
    ensures
        pow2(a) <= pow2(b),
    decreases b,
{
    if a < b {
        lemma_pow2_monotone(a, (b - 1) as nat);
    }
}

/// The pause before the evaluation after a failed attempt number `attempt`
/// (counted from zero): exponential, capped.
pub open spec fn spec_backoff(attempt: u32) -> u64 {
    if pow2(attempt as nat) > BACKOFF_CAP_SECS {
        BACKOFF_CAP_SECS
    } else {
        pow2(attempt as nat) as u64
    }
}

/// Exponential backoff with a cap: the pause in seconds after failed
/// attempt number `attempt`.
pub fn backoff_secs(attempt: u32) -> (r: u64)
    ensures
        r == spec_backoff(attempt),
{
    if attempt >= 6 {
        proof {
            reveal_with_fuel(pow2, 7);
            lemma_pow2_monotone(6, attempt as nat);
        }
        BACKOFF_CAP_SECS
    } else {
        let mut p: u64 = 1;
        let mut i: u32 = 0;
        while i < attempt
            invariant
                i <= attempt <= 5,
                p == pow2(i as nat),
            decreases attempt - i,
        {
            proof {
                reveal_with_fuel(pow2, 6);
                lemma_pow2_monotone(i as nat, 4);
                assert(pow2(i as nat + 1) == 2 * pow2(i as nat));
            }
            p = p * 2;
            i = i + 1;
        }
        proof {
            reveal_with_fuel(pow2, 6);
            lemma_pow2_monotone(attempt as nat, 5);
        }
        p
    }
}

/// The move an admission call makes after one evaluation: admission is
/// terminal; a failed evaluation backs off and re-evaluates while attempts
/// remain, and is denied once the budget is spent.
#[derive(Clone, Copy, Debug, PartialEq, Eq, Structural)]
pub enum AdmissionStep {
    /// The evaluation admitted the request: proceed to the service call.
    Admitted,
    /// Sleep this many seconds, then evaluate again.
    Backoff(u64),
    /// Every attempt is spent: the chunk must be treated as failed.
    Denied,
}

/// Decides the next move of an admission call from the outcome of the
/// evaluation just made (`allowed`) and its attempt number.
pub fn admission_step(allowed: bool, attempt: u32, max_attempts: u32) -> (r: AdmissionStep)
    requires
        attempt < max_attempts,
    ensures
        allowed ==> r == AdmissionStep::Admitted,
        (!allowed && attempt + 1 < max_attempts) ==> r == AdmissionStep::Backoff(
            spec_backoff(attempt),
        ),
        (!allowed && attempt + 1 >= max_attempts) ==> r == AdmissionStep::Denied,
    {
    if allowed {
        AdmissionStep::Admitted
    } else if attempt + 1 < max_attempts {
        AdmissionStep::Backoff(backoff_secs(attempt))
    } else {
        AdmissionStep::Denied
    }
}

/// Sum of the token estimates of a sequence of evaluation events.
pub open spec fn sum_tokens(events: Seq<(u64, usize)>) -> nat
    decreases events.len(),
{
    if events.len() == 0 {
        0
    } else {
        (events[0].1 + sum_tokens(events.drop_first())) as nat
    }
}

/// How many of the given evaluation events are admitted, running the
/// limiter through all of them in order.
pub open spec fn spec_admitted_requests(s: RateLimiter, events: Seq<(u64, usize)>) -> nat
    decreases events.len(),
{
    if events.len() == 0 {
        0
    } else {
        (if s.spec_admit_allowed(events[0].0, events[0].1) {
            1nat
        } else {
            0nat
        }) + spec_admitted_requests(s.spec_admit_state(events[0].0, events[0].1), events.drop_first())
    }
}

/// Sum of the token estimates of the admitted events, running the limiter
/// through all of them in order.
pub open spec fn spec_admitted_tokens(s: RateLimiter, events: Seq<(u64, usize)>) -> nat
    decreases events.len(),
{
    if events.len() == 0 {
        0
    } else {
        (if s.spec_admit_allowed(events[0].0, events[0].1) {
            events[0].1 as nat
        } else {
            0nat
        }) + spec_admitted_tokens(s.spec_admit_state(events[0].0, events[0].1), events.drop_first())
    }
}

/// Monotonic windows: over any run of evaluations whose instants all fall
/// inside the limiter's current window (so the window neither resets nor
/// rolls), the counted requests plus the newly admitted ones never pass the
/// request ceiling, and the counted tokens plus the newly admitted token
/// estimates never pass the token ceiling — counters that already stand
/// past their ceiling admit nothing more.
pub proof fn lemma_admitted_within_window_bounded(s: RateLimiter, events: Seq<(u64, usize)>)
    requires
        s.wf(),
        forall|i: int|
            0 <= i < events.len() ==> s.last_request <= (#[trigger] events[i]).0
                <= s.window_start + WINDOW_SECS,
        s.req_window + events.len() <= usize::MAX,
        s.token_window + sum_tokens(events) <= usize::MAX,
    ensures
        s.req_window + spec_admitted_requests(s, events) <= vstd::math::max(
            s.rpm as int,
            s.req_window as int,
        ),
        s.token_window + spec_admitted_tokens(s, events) <= vstd::math::max(
            s.tpm as int,
            s.token_window as int,
        ),
    decreases events.len(),
{
    if events.len() > 0 {
        let now = events[0].0;
        let tokens = events[0].1;
        let s1 = s.spec_admit_state(now, tokens);
        assert(!s.gap_elapsed(now));
        assert(!s.window_elapsed(now));
        assert(s1.req_window == s.req_window + 1);
        assert(s1.token_window == s.token_window + tokens);
        assert(s1.window_start == s.window_start && s1.last_request == s.last_request);
        let rest = events.drop_first();
        assert forall|i: int| 0 <= i < rest.len() implies s1.last_request <= (#[trigger] rest[i]).0
            <= s1.window_start + WINDOW_SECS by {
            assert(rest[i] == events[i + 1]);
        }
        lemma_admitted_within_window_bounded(s1, rest);
    }
}

/// Window reset: when more than a full window has passed since the limiter
/// last advanced, the next request is admitted whatever the counters held
/// (provided its own estimate fits the token ceiling — a single request
/// larger than the whole token budget is never admitted), and both windows
/// restart at the new instant with only this request counted.
pub proof fn lemma_gap_resets_admission(s: RateLimiter, now: u64, tokens: usize)
    requires
        s.wf(),
        now - s.last_request > WINDOW_SECS,
        tokens <= s.tpm,
    ensures
        s.spec_admit_allowed(now, tokens),
        s.spec_admit_state(now, tokens) == (RateLimiter {
            req_window: 1,
            window_start: now,
            last_request: now,
            token_window: tokens,
            rpm: s.rpm,
            rpd: s.rpd,
            tpm: s.tpm,
        }),
{
}

} // verus!
