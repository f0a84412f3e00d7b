//! The two rate limits of the annotation service: how much of the daily
//! allowance may still be spent, and how long to wait between two calls.

use vstd::prelude::*;

verus! {

/// The seconds that are spread over the calls still allowed in the short
/// window.
pub const PACING_BUDGET_SECS: u64 = 10;

/// The counters that the annotation service reports with each answer.
#[derive(Clone, Copy, Debug, PartialEq, Eq, Structural)]
pub struct QuotaState {
    /// Calls allowed in one short window.
    pub short_limit: u32,
    /// Calls still allowed in the current short window.
    pub short_remaining: u32,
    /// Calls allowed in one long window.
    pub long_limit: u32,
    /// Calls still allowed in the current long window.
    pub long_remaining: u32,
}

/// The share of `long_limit` that is kept back: `percent` hundredths of it,
/// rounded up to a whole call.
pub open spec fn reserved(long_limit: int, percent: int) -> int {
    (long_limit * percent + 99) / 100
}

/// `reserved` is the ceiling of `long_limit * percent / 100`: the least whole
/// number of calls that is no less than that share.
pub proof fn lemma_reserved_is_ceiling(long_limit: int, percent: int)
    requires
        0 <= long_limit,
        0 <= percent,
    ensures
        100 * reserved(long_limit, percent) >= long_limit * percent,
        100 * (reserved(long_limit, percent) - 1) < long_limit * percent,
        0 <= reserved(long_limit, percent),
{
    let x = long_limit * percent;
    assert(0 <= x) by (nonlinear_arith)
        requires
            0 <= long_limit,
            0 <= percent,
            x == long_limit * percent,
    ;
    assert(100 * ((x + 99) / 100) + (x + 99) % 100 == x + 99);
}

/// Computes the share of `long_limit` that is kept back.
pub fn reserved_quota(long_limit: u32, preserve_quota_percent: u8) -> (r: u64)
    ensures
        r == reserved(long_limit as int, preserve_quota_percent as int),
        r <= 3 * long_limit,
{
    let limit: u64 = long_limit as u64;
    let percent: u64 = preserve_quota_percent as u64;
    assert(limit * percent <= 0xffff_ffff * 255) by (nonlinear_arith)
        requires
            limit <= 0xffff_ffff,
            percent <= 255,
    ;
    assert(limit * percent <= limit * 255) by (nonlinear_arith)
        requires
            percent <= 255,
            0 <= limit,
    ;
    (limit * percent + 99) / 100
}

impl QuotaState {
    /// The calls of the long window that may still be spent once the
    /// reserve is kept back: `long_remaining` less the reserved share of
    /// `long_limit`. Zero or less means that nothing may be spent.
    pub open spec fn available(self, percent: int) -> int {
        self.long_remaining - reserved(self.long_limit as int, percent)
    }

    /// Computes the calls of the long window that may still be spent.
    pub fn available_long_quota(&self, preserve_quota_percent: u8) -> (r: i64)
        ensures
            r == self.available(preserve_quota_percent as int),
    {
        let kept: u64 = reserved_quota(self.long_limit, preserve_quota_percent);
        self.long_remaining as i64 - kept as i64
    }

    /// The seconds to wait after a call so that the short window is not
    /// overrun: the pacing budget divided by the calls still allowed in the
    /// short window, a remainder of zero counting as one.
    pub open spec fn pacing_delay(self) -> int {
        PACING_BUDGET_SECS as int / (if self.short_remaining <= 1 {
            1int
        } else {
            self.short_remaining as int
        })
    }

    /// Computes the seconds to wait after a call.
    pub fn pacing_delay_secs(&self) -> (r: u64)
        ensures
            r == self.pacing_delay(),
            r <= PACING_BUDGET_SECS,
    {
        let divisor: u64 = if self.short_remaining <= 1 {
            1
        } else {
            self.short_remaining as u64
        };
        PACING_BUDGET_SECS / divisor
    }
}

/// With the limit and the reserve unchanged, an answer that reports fewer
/// remaining calls leaves strictly less to spend.
pub proof fn lemma_available_strictly_decreases(
    before: QuotaState,
    after: QuotaState,
    percent: u8,
)
    requires
        after.long_limit == before.long_limit,
        after.long_remaining < before.long_remaining,
    ensures
        after.available(percent as int) < before.available(percent as int),
{
}

} // verus!
