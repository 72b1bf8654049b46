use vstd::prelude::*;

verus! {

/// Milliseconds in one calendar day.
pub const MS_PER_DAY: i64 = 86_400_000;

/// The largest instant, in milliseconds, that the clock can report: the last
/// millisecond of the year 262142, the end of the calendar range.
pub const LATEST_MS: i64 = 8_210_266_876_799_999;

/// Whether `ms` is an instant the clock can report: not before the Unix epoch
/// and not after `LATEST_MS`.
pub open spec fn clock_instant(ms: int) -> bool {
    0 <= ms <= LATEST_MS
}

/// The calendar day (days since 1970-01-01, UTC) that contains instant `ms`.
pub open spec fn day_of(ms: int) -> int {
    ms / (MS_PER_DAY as int)
}

/// The current instant, read from the system clock.
///
/// Calls `chrono::Utc::now` and `DateTime::timestamp_millis`. The contract
/// claims only the range: `Utc::now` panics on a clock set before the Unix
/// epoch and cannot build a time past the end of chrono's calendar; which
/// instant comes back depends on the machine's clock and is not stated.
#[verifier::external_body]
pub fn now_millis() -> (ms: i64)
    ensures
        clock_instant(ms as int),
{
    chrono::Utc::now().timestamp_millis()
}

/// The calendar day that contains instant `ms` (floor division by a day).
pub fn day_of_millis(ms: i64) -> (day: i64)
    ensures
        day as int == day_of(ms as int),
        -106_751_992_000 <= day <= 106_751_992_000,
{
    if ms >= 0 {
        let q: u64 = (ms as u64) / (MS_PER_DAY as u64);
        proof {
            assert(q as int == (ms as int) / (MS_PER_DAY as int));
        }
        q as i64
    } else {
        let m: i64 = -(ms + 1);
        let q: u64 = (m as u64) / (MS_PER_DAY as u64);
        proof {
            lemma_floor_of_negative(ms as int, q as int);
        }
        -(q as i64) - 1
    }
}

proof fn lemma_floor_of_negative(ms: int, q: int)
    requires
        ms < 0,
        ms >= i64::MIN,
        q == (-(ms + 1)) / (MS_PER_DAY as int),
    ensures
        ms / (MS_PER_DAY as int) == -q - 1,
        q <= 106_751_991_167,
{
    let d = MS_PER_DAY as int;
    let m = -(ms + 1);
    assert(0 <= m);
    let r = m % d;
    assert(m == q * d + r && 0 <= r < d) by (nonlinear_arith)
        requires q == m / d, r == m % d, d > 0, m >= 0;
    // ms = -m - 1 = (-q - 1) * d + (d - 1 - r)
    assert(ms == (-q - 1) * d + (d - 1 - r)) by (nonlinear_arith)
        requires m == q * d + r, ms == -m - 1;
    assert(0 <= d - 1 - r < d);
    vstd::arithmetic::div_mod::lemma_fundamental_div_mod_converse(ms, d, -q - 1, d - 1 - r);
    assert(q <= 106_751_991_167) by (nonlinear_arith)
        requires q == m / d, m <= 9_223_372_036_854_775_807, d == 86_400_000;
}

} // verus!
