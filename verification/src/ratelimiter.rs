//! A rate limiter: at most one `true` per interval.

use vstd::prelude::*;
use crate::clock::now_ns;

verus! {

/// What a [`RateLimiter`] stands for: the instant from which it fires, and the
/// interval it rearms with. Times are nanoseconds on the caller's clock.
pub struct LimiterState {
    pub deadline: int,
    pub interval: int,
}

/// Whether a limiter in state `s` fires when asked at `now`.
pub open spec fn fires(s: LimiterState, now: int) -> bool {
    now >= s.deadline
}

/// The state after asking at `now`: rearmed to `now + interval` where the
/// limiter fired, unchanged where it did not. An interval that went by
/// unasked is lost, not banked.
pub open spec fn after_limit(s: LimiterState, now: int) -> LimiterState {
    if fires(s, now) {
        LimiterState { deadline: now + s.interval, interval: s.interval }
    } else {
        s
    }
}

/// Lets something happen at most once per interval.
///
/// The deadline is kept as the instant of arming plus the interval, so it
/// never has to fit in a machine word.
#[derive(Debug)]
pub struct RateLimiter {
    armed_at: u64,
    interval: u64,
}

impl View for RateLimiter {
    type V = LimiterState;

    closed spec fn view(&self) -> LimiterState {
        LimiterState { deadline: self.armed_at + self.interval, interval: self.interval as int }
    }
}

impl RateLimiter {
    /// A limiter armed at `now`: it first fires `interval` nanoseconds later.
    pub fn new_at(interval: u64, now: u64) -> (r: RateLimiter)
        ensures
            r@ == (LimiterState { deadline: now + interval, interval: interval as int }),
    {
        RateLimiter { armed_at: now, interval }
    }

    /// The interval, in nanoseconds, that the limiter rearms with.
    pub fn interval(&self) -> (interval: u64)
        ensures
            interval == self@.interval,
    {
        self.interval
    }

    /// A limiter armed at the current time. The time is read from the clock,
    /// so the deadline is `interval` past some instant that fits in a `u64`.
    pub fn new(interval: u64) -> (r: RateLimiter)
        ensures
            r@.interval == interval,
            interval <= r@.deadline <= u64::MAX + interval,
    {
        let now = now_ns();
        RateLimiter::new_at(interval, now)
    }

    /// Asks the limiter at time `now`: `true`, and rearmed to
    /// `now + interval`, when `now` has reached the deadline; `false`, and
    /// unchanged, before that.
    pub fn limit_at(&mut self, now: u64) -> (fired: bool)
        ensures
            fired == fires(old(self)@, now as int),
            final(self)@ == after_limit(old(self)@, now as int),
        no_unwind
    {
        if now >= self.armed_at && now - self.armed_at >= self.interval {
            self.armed_at = now;
            true
        } else {
            false
        }
    }

    /// Asks the limiter at the current time: the answer and the new state are
    /// those of [`RateLimiter::limit_at`] for the reading of the clock, which
    /// is some `u64`. So a limiter whose deadline no reading can fall short
    /// of fires, and is rearmed; one whose deadline no reading can reach
    /// stays silent, and as it was.
    pub fn limit(&mut self) -> (fired: bool)
        ensures
            exists|now: u64|
                fired == fires(old(self)@, now as int) && final(self)@ == #[trigger] after_limit(
                    old(self)@,
                    now as int,
                ),
            old(self)@.deadline <= 0 ==> fired,
            old(self)@.deadline > u64::MAX ==> !fired && final(self)@ == old(self)@,
            !fired ==> final(self)@ == old(self)@,
    {
        let now = now_ns();
        self.limit_at(now)
    }
}

/// Once a limiter has fired at `fire`, it stays silent and unchanged for
/// every question asked less than one interval after `fire`, and fires again
/// at the first question asked an interval or more after it.
pub proof fn law_fires_once_per_interval(s: LimiterState, fire: int, later: int)
    requires
        s.interval >= 0,
        fires(s, fire),
    ensures
        later < fire + s.interval ==> !fires(after_limit(s, fire), later) && after_limit(
            after_limit(s, fire),
            later,
        ) == after_limit(s, fire),
        later >= fire + s.interval ==> fires(after_limit(s, fire), later),
{
}

/// Before its deadline a limiter never fires, however often it is asked.
pub proof fn law_silent_before_deadline(s: LimiterState, now: int)
    requires
        now < s.deadline,
    ensures
        !fires(s, now),
        after_limit(s, now) == s,
{
}

} // verus!
