//! The rate gate: one shared record of when the last fetch started, which spaces
//! the starts of all fetches at least a fixed delay apart.
use vstd::prelude::*;

verus! {

/// When a fetch asked for at `now` may start, the last one having started at
/// `last`: no earlier than `now`, and no earlier than `delay` after `last`
/// (the largest time where that sum does not fit).
pub open spec fn planned_start(last: u64, delay: u64, now: u64) -> u64 {
    let earliest = if last + delay > u64::MAX {
        u64::MAX
    } else {
        (last + delay) as u64
    };
    if now >= earliest {
        now
    } else {
        earliest
    }
}

/// Times are milliseconds on one clock that every worker reads.
#[derive(Clone, Copy, Debug, PartialEq, Eq)]
pub struct RateGate {
    /// When the last fetch started, or when this record was created.
    pub last_start: u64,
    /// Least time between two starts.
    pub delay_ms: u64,
}

impl RateGate {
    /// A gate made at `now_ms`: the first fetch too waits for `delay_ms`.
    pub fn new(now_ms: u64, delay_ms: u64) -> (r: RateGate)
        ensures
            r.last_start == now_ms,
            r.delay_ms == delay_ms,
    {
        RateGate { last_start: now_ms, delay_ms }
    }

    /// Claims the next start slot for a fetch asked for at `now_ms`: records when that fetch
    /// starts and returns how long the caller waits before it.
    pub fn acquire(&mut self, now_ms: u64) -> (wait: u64)
        ensures
            final(self).delay_ms == old(self).delay_ms,
            final(self).last_start == planned_start(old(self).last_start, old(self).delay_ms, now_ms),
            wait == final(self).last_start - now_ms,
    {
        let earliest = self.last_start.saturating_add(self.delay_ms);
        let start = if now_ms >= earliest {
            now_ms
        } else {
            earliest
        };
        self.last_start = start;
        start - now_ms
    }
}

/// Two fetches that claim their slots one after the other start at least the delay
/// apart, whenever each asked, and neither starts before it asked.
pub proof fn law_fetch_spacing(last: u64, delay: u64, now1: u64, now2: u64)
    requires
        planned_start(last, delay, now1) + delay <= u64::MAX,
    ensures
        planned_start(last, delay, now1) >= now1,
        planned_start(planned_start(last, delay, now1), delay, now2) >= planned_start(last, delay, now1) + delay,
        planned_start(planned_start(last, delay, now1), delay, now2) >= now2,
{
}

} // verus!
