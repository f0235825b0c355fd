//! The limiter of calls to the language model: a sliding window of one hour.
//!
//! Points in time are nanoseconds on a monotonic clock.
use std::collections::VecDeque;
use vstd::prelude::*;
use vstd::std_specs::vecdeque::*;
use vstd::string::*;

use crate::text::{copied, dec, dec_text, ends_with, law_parts_are_found};

verus! {

/// One second, in nanoseconds.
pub const SECOND: u64 = 1_000_000_000;

/// The length of the window, in seconds.
pub const WINDOW_SECS: u64 = 3600;

/// The length of the window, in nanoseconds.
pub const WINDOW: u64 = 3_600_000_000_000;

/// Why a call is refused.
#[derive(Debug, Clone, Copy, PartialEq, Eq, Structural)]
pub enum RateLimitReason {
    /// Calls are switched off.
    Disabled,
    /// The limit is 0.
    LimitZero,
    /// The window is full; the oldest call leaves it in so many seconds.
    LimitReached { retry_after_secs: u64 },
}

impl RateLimitReason {
    /// The reason in words.
    pub open spec fn text(self) -> Seq<char> {
        match self {
            RateLimitReason::Disabled => "LLM calls are globally disabled (calls_per_hour_enabled = false)"@,
            RateLimitReason::LimitZero => "LLM calls are deactivated (max_calls_per_hour = 0)"@,
            RateLimitReason::LimitReached { retry_after_secs } => "LLM rate limit reached. Try again in "@
                + dec(retry_after_secs as nat) + "s."@,
        }
    }

    /// The reason in words.
    pub fn message(&self) -> (r: String)
        ensures
            r@ == self.text(),
    {
        match self {
            RateLimitReason::Disabled => copied(
                "LLM calls are globally disabled (calls_per_hour_enabled = false)",
            ),
            RateLimitReason::LimitZero => copied(
                "LLM calls are deactivated (max_calls_per_hour = 0)",
            ),
            RateLimitReason::LimitReached { retry_after_secs } => {
                let mut m: String = copied("LLM rate limit reached. Try again in ");
                m.append(dec_text(*retry_after_secs as u128).as_str());
                m.append("s.");
                m
            },
        }
    }
}

/// Whether a call may be made.
#[derive(Debug, Clone, Copy, PartialEq, Eq, Structural)]
pub enum RateLimitDecision {
    Allowed,
    Blocked(RateLimitReason),
}

/// A snapshot of the limiter.
#[derive(Debug, Clone, Copy, PartialEq, Eq, Structural)]
pub struct LlmRateLimitStatus {
    pub enabled: bool,
    pub max_calls_per_hour: u32,
    pub calls_in_last_hour: u32,
    /// Seconds until the oldest call leaves the window; `None` without calls.
    pub retry_after_secs: Option<u64>,
}

impl LlmRateLimitStatus {
    /// No call can be made at all, whatever the window holds.
    pub fn calls_blocked(&self) -> (r: bool)
        ensures
            r == (!self.enabled || self.max_calls_per_hour == 0),
    {
        !self.enabled || self.max_calls_per_hour == 0
    }

    /// The window of a positive limit is full.
    pub fn limit_reached(&self) -> (r: bool)
        ensures
            r == (self.max_calls_per_hour > 0 && self.calls_in_last_hour
                >= self.max_calls_per_hour),
    {
        self.calls_in_last_hour >= self.max_calls_per_hour && self.max_calls_per_hour > 0
    }
}

// ---------------------------------------------------------------------------
// Model
// ---------------------------------------------------------------------------
/// What a limiter holds: its settings and the times of the calls it remembers.
pub struct LimiterView {
    pub enabled: bool,
    pub max: nat,
    pub window: Seq<u64>,
}

/// The time from `t` to `now`, or 0 where `t` is later.
pub open spec fn elapsed(now: u64, t: u64) -> int {
    if now >= t {
        now - t
    } else {
        0
    }
}

/// The window without the calls at its front that are an hour old or older.
pub open spec fn recent(window: Seq<u64>, now: u64) -> Seq<u64>
    decreases window.len(),
{
    if window.len() > 0 && elapsed(now, window[0]) >= WINDOW {
        recent(window.skip(1), now)
    } else {
        window
    }
}

/// Seconds, counted in full, until the call at `t` leaves the window.
pub open spec fn wait_secs(now: u64, t: u64) -> int {
    WINDOW_SECS - elapsed(now, t) / (SECOND as int)
}

/// What the limiter says to a call at `now`.
pub open spec fn decision(l: LimiterView, now: u64) -> RateLimitDecision {
    let w = recent(l.window, now);
    if !l.enabled {
        RateLimitDecision::Blocked(RateLimitReason::Disabled)
    } else if l.max == 0 {
        RateLimitDecision::Blocked(RateLimitReason::LimitZero)
    } else if w.len() >= l.max {
        RateLimitDecision::Blocked(
            RateLimitReason::LimitReached { retry_after_secs: wait_secs(now, w[0]) as u64 },
        )
    } else {
        RateLimitDecision::Allowed
    }
}

/// The limiter after an update of its settings: what is left out stays.
pub open spec fn updated(l: LimiterView, enabled: Option<bool>, max: Option<u32>) -> LimiterView {
    LimiterView {
        enabled: match enabled {
            Some(e) => e,
            None => l.enabled,
        },
        max: match max {
            Some(m) => m as nat,
            None => l.max,
        },
        window: l.window,
    }
}

/// The limiter after a call at `now`: the call is remembered if it was
/// allowed.
pub open spec fn after_call(l: LimiterView, now: u64) -> LimiterView {
    if !l.enabled || l.max == 0 {
        l
    } else if decision(l, now) == RateLimitDecision::Allowed {
        LimiterView { window: recent(l.window, now).push(now), ..l }
    } else {
        LimiterView { window: recent(l.window, now), ..l }
    }
}

proof fn lemma_recent_shorter(window: Seq<u64>, now: u64)
    ensures
        forall|i: int|
            0 <= i < recent(window, now).len() ==> window.contains(#[trigger] recent(window, now)[i]),
        recent(window, now).len() <= window.len(),
        recent(window, now).len() > 0 ==> elapsed(now, recent(window, now)[0]) < WINDOW,
    decreases window.len(),
{
    if window.len() > 0 && elapsed(now, window[0]) >= WINDOW {
        lemma_recent_shorter(window.skip(1), now);
        let r = recent(window, now);
        assert forall|i: int| 0 <= i < r.len() implies window.contains(#[trigger] r[i]) by {
            let k = choose|k: int| 0 <= k < window.skip(1).len() && window.skip(1)[k] == r[i];
            assert(window[k + 1] == r[i]);
        }
    } else {
        assert forall|i: int| 0 <= i < window.len() implies window.contains(#[trigger] window[i]) by {}
    }
}

// ---------------------------------------------------------------------------
// The limiter
// ---------------------------------------------------------------------------
/// Remembers the calls of the last hour and refuses the ones over the limit.
#[derive(Debug)]
pub struct LlmRateLimiter {
    enabled: bool,
    max_calls_per_hour: u32,
    window: VecDeque<u64>,
}

impl View for LlmRateLimiter {
    type V = LimiterView;

    closed spec fn view(&self) -> LimiterView {
        LimiterView {
            enabled: self.enabled,
            max: self.max_calls_per_hour as nat,
            window: self.window@,
        }
    }
}

/// Drops the calls at the front of `window` that are an hour old or older.
fn prune(window: &mut VecDeque<u64>, now: u64)
    ensures
        final(window)@ == recent(old(window)@, now),
{
    let ghost start = window@;
    while window.len() > 0 && now >= window[0] && now - window[0] >= WINDOW
        invariant
            recent(start, now) == recent(window@, now),
        decreases window@.len(),
    {
        let ghost before = window@;
        let _ = window.pop_front();
        assert(window@ =~= before.skip(1));
    }
}

/// Seconds until the call at `t` leaves the window.
fn wait_for(now: u64, t: u64) -> (r: u64)
    requires
        elapsed(now, t) < WINDOW,
    ensures
        r == wait_secs(now, t),
        1 <= r <= WINDOW_SECS,
{
    if now >= t {
        WINDOW_SECS - (now - t) / SECOND
    } else {
        WINDOW_SECS
    }
}

impl LlmRateLimiter {
    /// No more calls are remembered than a limit can ask for.
    pub open spec fn wf(self) -> bool {
        self@.window.len() <= u32::MAX
    }

    /// A limiter that remembers no call.
    pub fn new(enabled: bool, max_calls_per_hour: u32) -> (r: Self)
        ensures
            r.wf(),
            r@ == (LimiterView {
                enabled,
                max: max_calls_per_hour as nat,
                window: Seq::<u64>::empty(),
            }),
    {
        LlmRateLimiter { enabled, max_calls_per_hour, window: VecDeque::new() }
    }

    /// Takes new settings; the calls remembered so far still count.
    pub fn reconfigure(&mut self, enabled: bool, max_calls_per_hour: u32)
        ensures
            final(self)@ == (LimiterView {
                enabled,
                max: max_calls_per_hour as nat,
                window: old(self)@.window,
            }),
    {
        self.enabled = enabled;
        self.max_calls_per_hour = max_calls_per_hour;
    }

    /// Takes the settings that an update asks for: each one that it leaves out
    /// keeps the value that the limiter has, and the calls remembered so far
    /// still count. An update that asks for nothing is refused.
    pub fn update(&mut self, enabled: Option<bool>, max_calls_per_hour: Option<u32>) -> (r: Result<
        (),
        String,
    >)
        ensures
            old(self).wf() ==> final(self).wf(),
            final(self)@ == updated(old(self)@, enabled, max_calls_per_hour),
            match r {
                Ok(_) => enabled is Some || max_calls_per_hour is Some,
                Err(e) => enabled is None && max_calls_per_hour is None && e@
                    == "Provide calls_per_hour_enabled and/or max_calls_per_hour"@,
            },
    {
        if enabled.is_none() && max_calls_per_hour.is_none() {
            return Err(copied("Provide calls_per_hour_enabled and/or max_calls_per_hour"));
        }
        let now_enabled: bool = enabled.unwrap_or(self.enabled);
        let now_max: u32 = max_calls_per_hour.unwrap_or(self.max_calls_per_hour);
        self.reconfigure(now_enabled, now_max);
        Ok(())
    }

    /// Whether the call at `now` may be made. One that may is remembered.
    pub fn try_acquire(&mut self, now: u64) -> (r: RateLimitDecision)
        requires
            old(self).wf(),
        ensures
            final(self).wf(),
            r == decision(old(self)@, now),
            final(self)@ == after_call(old(self)@, now),
    {
        if !self.enabled {
            return RateLimitDecision::Blocked(RateLimitReason::Disabled);
        }
        if self.max_calls_per_hour == 0 {
            return RateLimitDecision::Blocked(RateLimitReason::LimitZero);
        }
        proof {
            lemma_recent_shorter(self.window@, now);
        }
        prune(&mut self.window, now);
        if self.window.len() as u32 >= self.max_calls_per_hour {
            let retry_after_secs: u64 = wait_for(now, self.window[0]);
            return RateLimitDecision::Blocked(RateLimitReason::LimitReached { retry_after_secs });
        }
        self.window.push_back(now);
        RateLimitDecision::Allowed
    }

    /// A snapshot at `now`; the limiter stays as it is.
    pub fn status(&self, now: u64) -> (r: LlmRateLimitStatus)
        requires
            self.wf(),
        ensures
            r.enabled == self@.enabled,
            r.max_calls_per_hour == self@.max,
            r.calls_in_last_hour == recent(self@.window, now).len(),
            match r.retry_after_secs {
                Some(s) => recent(self@.window, now).len() > 0 && s == wait_secs(
                    now,
                    recent(self@.window, now)[0],
                ),
                None => recent(self@.window, now).len() == 0,
            },
    {
        let mut start: usize = 0;
        let ghost whole = self.window@;
        assert(whole.skip(0) =~= whole);
        while start < self.window.len() && now >= self.window[start] && now - self.window[start]
            >= WINDOW
            invariant
                start <= self.window@.len(),
                whole == self.window@,
                recent(whole, now) == recent(whole.skip(start as int), now),
            decreases self.window@.len() - start,
        {
            assert(whole.skip(start as int).skip(1) =~= whole.skip(start + 1));
            start = start + 1;
        }
        let ghost rest = whole.skip(start as int);
        assert(rest.len() > 0 ==> rest[0] == whole[start as int]);
        assert(recent(whole, now) == rest);
        let calls: u32 = (self.window.len() - start) as u32;
        let retry_after_secs: Option<u64> = if start < self.window.len() {
            Some(wait_for(now, self.window[start]))
        } else {
            None
        };
        LlmRateLimitStatus {
            enabled: self.enabled,
            max_calls_per_hour: self.max_calls_per_hour,
            calls_in_last_hour: calls,
            retry_after_secs,
        }
    }
}

// ---------------------------------------------------------------------------
// Laws
// ---------------------------------------------------------------------------
/// Times that do not go back.
pub open spec fn ordered(times: Seq<u64>) -> bool {
    forall|i: int, j: int| 0 <= i <= j < times.len() ==> times[i] <= times[j]
}

/// The limiter after calls at the given times, in order.
pub open spec fn after_calls(l: LimiterView, times: Seq<u64>) -> LimiterView
    decreases times.len(),
{
    if times.len() == 0 {
        l
    } else {
        after_call(after_calls(l, times.drop_last()), times.last())
    }
}

/// The calls at the given times that are allowed.
pub open spec fn allowed(l: LimiterView, times: Seq<u64>) -> Seq<u64>
    decreases times.len(),
{
    if times.len() == 0 {
        Seq::empty()
    } else if decision(after_calls(l, times.drop_last()), times.last())
        == RateLimitDecision::Allowed {
        allowed(l, times.drop_last()).push(times.last())
    } else {
        allowed(l, times.drop_last())
    }
}

/// A setting that an update leaves out keeps the value that an earlier update
/// gave it, whatever calls came in between; and updates forget no call.
pub proof fn law_updates_keep_what_they_leave_out(
    l: LimiterView,
    m: u32,
    enabled: bool,
    times: Seq<u64>,
)
    ensures
        ({
            let between = after_calls(updated(l, None, Some(m)), times);
            let after = updated(between, Some(enabled), None);
            &&& after.max == m
            &&& after.enabled == enabled
            &&& after.window == between.window
        }),
        ({
            let between = after_calls(updated(l, Some(enabled), None), times);
            let after = updated(between, None, Some(m));
            &&& after.max == m
            &&& after.enabled == enabled
            &&& after.window == between.window
        }),
{
    lemma_calls_keep_settings(updated(l, None, Some(m)), times);
    lemma_calls_keep_settings(updated(l, Some(enabled), None), times);
}

proof fn lemma_calls_keep_settings(l: LimiterView, times: Seq<u64>)
    ensures
        after_calls(l, times).max == l.max,
        after_calls(l, times).enabled == l.enabled,
    decreases times.len(),
{
    if times.len() > 0 {
        lemma_calls_keep_settings(l, times.drop_last());
    }
}

/// A call that is refused is not remembered: the limiter at most forgets calls
/// that are an hour old.
pub proof fn law_refusal_records_nothing(l: LimiterView, now: u64)
    requires
        decision(l, now) != RateLimitDecision::Allowed,
    ensures
        after_call(l, now).window == l.window || after_call(l, now).window == recent(l.window, now),
{
}

/// With calls switched off, or with a limit of 0, no call is ever allowed.
pub proof fn law_switched_off_allows_nothing(l: LimiterView, times: Seq<u64>)
    requires
        !l.enabled || l.max == 0,
    ensures
        allowed(l, times) == Seq::<u64>::empty(),
        after_calls(l, times) == l,
    decreases times.len(),
{
    if times.len() > 0 {
        law_switched_off_allows_nothing(l, times.drop_last());
    }
}

/// A waiting time is at least one second and at most an hour.
pub proof fn law_wait_is_positive(l: LimiterView, now: u64)
    ensures
        match decision(l, now) {
            RateLimitDecision::Blocked(RateLimitReason::LimitReached { retry_after_secs }) => 1
                <= retry_after_secs <= WINDOW_SECS,
            _ => true,
        },
{
    lemma_recent_shorter(l.window, now);
}

/// A caller that was refused because the window holds exactly the limit, and
/// comes back after the waiting time with no call in between, is allowed.
pub proof fn law_waiting_helps(l: LimiterView, now: u64, later: u64)
    requires
        ordered(l.window.push(now)),
        match decision(l, now) {
            RateLimitDecision::Blocked(RateLimitReason::LimitReached { retry_after_secs }) => later
                >= now + retry_after_secs * SECOND,
            _ => false,
        },
        recent(l.window, now).len() == l.max,
    ensures
        decision(after_call(l, now), later) == RateLimitDecision::Allowed,
{
    lemma_recent_shorter(l.window, now);
    let w = recent(l.window, now);
    let e = elapsed(now, w[0]);
    assert(w[0] <= now) by {
        assert(l.window.contains(w[0]));
        let k = choose|k: int| 0 <= k < l.window.len() && l.window[k] == w[0];
        let all = l.window.push(now);
        assert(all[k] <= all[all.len() - 1]);
    }
    assert(wait_secs(now, w[0]) * SECOND + e >= WINDOW) by (nonlinear_arith)
        requires
            wait_secs(now, w[0]) == 3600 - e / 1_000_000_000,
            SECOND == 1_000_000_000,
            WINDOW == 3_600_000_000_000,
            0 <= e,
    ;
    assert(elapsed(later, w[0]) >= WINDOW);
    lemma_recent_shorter(w.skip(1), later);
}

/// The calls that a limiter remembers are the last ones it allowed, and the
/// others are an hour old.
spec fn remembers(window: Seq<u64>, granted: Seq<u64>, last: u64) -> bool {
    &&& window.len() <= granted.len()
    &&& window == granted.skip(granted.len() - window.len())
    &&& forall|i: int|
        0 <= i < granted.len() - window.len() ==> last - #[trigger] granted[i] >= WINDOW
}

proof fn lemma_recent_remembers(window: Seq<u64>, granted: Seq<u64>, last: u64, now: u64)
    requires
        remembers(window, granted, last),
        last <= now,
        forall|i: int| 0 <= i < granted.len() ==> #[trigger] granted[i] <= now,
    ensures
        remembers(recent(window, now), granted, now),
    decreases window.len(),
{
    if window.len() > 0 && elapsed(now, window[0]) >= WINDOW {
        let rest = window.skip(1);
        let n = granted.len() - window.len();
        assert(window[0] == granted[n]);
        assert(rest =~= granted.skip(n + 1));
        lemma_recent_remembers(rest, granted, now, now);
    }
}

proof fn lemma_allowed_trace(l: LimiterView, times: Seq<u64>)
    requires
        l.enabled,
        l.max > 0,
        l.window.len() == 0,
        ordered(times),
    ensures
        after_calls(l, times).enabled,
        after_calls(l, times).max == l.max,
        times.len() > 0 ==> remembers(
            after_calls(l, times).window,
            allowed(l, times),
            times.last(),
        ),
        times.len() == 0 ==> after_calls(l, times).window.len() == 0,
        ordered(allowed(l, times)),
        forall|i: int|
            0 <= i < allowed(l, times).len() ==> times.len() > 0 && #[trigger] allowed(l, times)[i]
                <= times.last(),
        forall|i: int|
            0 <= i && i + l.max < allowed(l, times).len() ==> allowed(l, times)[i + l.max as int]
                - #[trigger] allowed(l, times)[i] >= WINDOW,
    decreases times.len(),
{
    if times.len() > 0 {
        let earlier = times.drop_last();
        let now = times.last();
        assert(ordered(earlier));
        lemma_allowed_trace(l, earlier);
        let before = after_calls(l, earlier);
        let granted = allowed(l, earlier);
        if earlier.len() > 0 {
            assert(earlier.last() <= now);
            lemma_recent_remembers(before.window, granted, earlier.last(), now);
        } else {
            assert(granted =~= Seq::empty());
            assert(recent(before.window, now) =~= granted.skip(0));
        }
        let w = recent(before.window, now);
        if decision(before, now) == RateLimitDecision::Allowed {
            let all = granted.push(now);
            assert(w.push(now) =~= all.skip(all.len() - w.len() - 1));
            assert forall|i: int| 0 <= i && i + l.max < all.len() implies all[i + l.max as int]
                - #[trigger] all[i] >= WINDOW by {
                if i + l.max == granted.len() {
                    assert(i < granted.len() - w.len());
                    assert(now - granted[i] >= WINDOW);
                } else {
                    assert(granted[i + l.max as int] - granted[i] >= WINDOW);
                }
            }
        }
    }
}

/// However calls come in, the limiter never allows more than its limit within
/// an hour: of the calls allowed, any one and the one that comes `max` places
/// after it lie at least an hour apart.
pub proof fn law_never_over_limit(l: LimiterView, times: Seq<u64>, i: int)
    requires
        l.enabled,
        l.max > 0,
        l.window == Seq::<u64>::empty(),
        ordered(times),
        0 <= i,
        i + l.max < allowed(l, times).len(),
    ensures
        allowed(l, times)[i + l.max as int] - allowed(l, times)[i] >= WINDOW,
{
    lemma_allowed_trace(l, times);
}

/// What is remembered of the last hour is the end of the window: every call that
/// was dropped is an hour old or older, and the oldest that is kept is not. Where
/// times do not go back, none that is kept is.
pub proof fn law_recent_calls(window: Seq<u64>, now: u64)
    ensures
        ({
            let kept = recent(window, now);
            let dropped = window.len() - kept.len();
            &&& 0 <= dropped
            &&& kept == window.skip(dropped)
            &&& forall|i: int| 0 <= i < dropped ==> now - #[trigger] window[i] >= 3_600_000_000_000
            &&& kept.len() > 0 ==> now - kept[0] < 3_600_000_000_000
            &&& ordered(window) ==> forall|i: int|
                0 <= i < kept.len() ==> now - #[trigger] kept[i] < 3_600_000_000_000
        }),
    decreases window.len(),
{
    let kept = recent(window, now);
    if window.len() > 0 && elapsed(now, window[0]) >= WINDOW {
        let rest = window.skip(1);
        law_recent_calls(rest, now);
        let dropped = window.len() - kept.len();
        assert(rest.skip(dropped - 1) =~= window.skip(dropped));
        assert forall|i: int| 0 <= i < dropped implies now - #[trigger] window[i]
            >= 3_600_000_000_000 by {
            if i > 0 {
                assert(rest[i - 1] == window[i]);
            }
        }
        if ordered(window) {
            assert(ordered(rest)) by {
                assert forall|i: int, j: int| 0 <= i <= j < rest.len() implies rest[i] <= rest[j] by {
                    assert(window[i + 1] <= window[j + 1]);
                }
            }
        }
    } else {
        assert(window.skip(0) =~= window);
        if ordered(window) && window.len() > 0 {
            assert forall|i: int| 0 <= i < kept.len() implies now - #[trigger] kept[i]
                < 3_600_000_000_000 by {
                assert(window[0] <= window[i]);
            }
        }
    }
}

/// A call is allowed exactly where calls are switched on and fewer than the limit
/// were remembered in the last hour. It is refused for the first reason that
/// there is: that calls are switched off, that the limit is 0, or that the window
/// is full, with the full seconds until its oldest call is an hour old.
pub proof fn law_decisions(l: LimiterView, now: u64)
    ensures
        decision(l, now) == RateLimitDecision::Allowed <==> l.enabled && recent(l.window, now).len()
            < l.max,
        !l.enabled ==> decision(l, now) == RateLimitDecision::Blocked(RateLimitReason::Disabled),
        l.enabled && l.max == 0 ==> decision(l, now) == RateLimitDecision::Blocked(
            RateLimitReason::LimitZero,
        ),
        l.enabled && l.max > 0 && recent(l.window, now).len() >= l.max ==> {
            let t = recent(l.window, now)[0];
            let secs: int = if now >= t {
                3600 - (now - t) / 1_000_000_000
            } else {
                3600
            };
            &&& 1 <= secs <= 3600
            &&& decision(l, now) == RateLimitDecision::Blocked(
                RateLimitReason::LimitReached { retry_after_secs: secs as u64 },
            )
        },
{
    lemma_recent_shorter(l.window, now);
}

/// A call that is allowed is remembered, after those of the last hour; settings
/// stay.
pub proof fn law_allowed_calls_are_remembered(l: LimiterView, now: u64)
    ensures
        after_call(l, now).enabled == l.enabled,
        after_call(l, now).max == l.max,
        decision(l, now) == RateLimitDecision::Allowed ==> after_call(l, now).window == recent(
            l.window,
            now,
        ).push(now),
        l.enabled && l.max > 0 && decision(l, now) != RateLimitDecision::Allowed ==> after_call(
            l,
            now,
        ).window == recent(l.window, now),
{
}

/// An update takes what it gives, and forgets no call.
pub proof fn law_updates_take_what_they_give(l: LimiterView, enabled: bool, max: u32)
    ensures
        updated(l, Some(enabled), Some(max)).enabled == enabled,
        updated(l, Some(enabled), Some(max)).max == max,
        updated(l, Some(enabled), None).max == l.max,
        updated(l, None, Some(max)).enabled == l.enabled,
        updated(l, None, None) == l,
        updated(l, Some(enabled), Some(max)).window == l.window,
{
}

/// A second has a thousand million nanoseconds, and the window is an hour.
pub proof fn law_window_is_an_hour()
    ensures
        SECOND == 1000 * 1000 * 1000,
        WINDOW_SECS == 60 * 60,
        WINDOW == 60 * 60 * 1_000_000_000,
{
}

/// A full window is told of with the seconds to wait.
pub proof fn law_waiting_is_told(secs: u64)
    ensures
        ends_with(
            (RateLimitReason::LimitReached { retry_after_secs: secs }).text(),
            dec(secs as nat) + "s."@,
        ),
{
    let head = "LLM rate limit reached. Try again in "@;
    law_parts_are_found(head, dec(secs as nat) + "s."@, Seq::empty());
    assert((RateLimitReason::LimitReached { retry_after_secs: secs }).text() =~= head + (dec(
        secs as nat,
    ) + "s."@));
}

/// The time from one moment to a later one is their difference; there is none to
/// an earlier one.
pub proof fn law_elapsed(t: u64, later: u64)
    requires
        t <= later,
    ensures
        t + elapsed(later, t) == later,
        elapsed(t, later) == 0,
{
}

} // verus!
