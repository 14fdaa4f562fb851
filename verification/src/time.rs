//! Civil UTC date-times and their place on the Unix timeline.
//!
//! A schedule entry's resolved date is kept as a civil date-time (year,
//! month, day, hour, minute, second) understood in UTC. The listing text
//! carries local times at a fixed +10:00 offset, so resolving a line means
//! stepping its civil time back ten hours; `ts_of` maps a civil time to
//! seconds since the Unix epoch, which is the order entries are sorted by.

use vstd::prelude::*;

verus! {

/// One second on the UTC timeline, kept as civil calendar fields.
#[derive(Clone, Copy, PartialEq, Eq, Structural, Debug)]
pub struct UtcTime {
    pub year: i64,
    pub month: u8,
    pub day: u8,
    pub hour: u8,
    pub minute: u8,
    pub second: u8,
}

/// Largest calendar year the library works with; years handed in by
/// callers come from an `i32` year count.
pub const MAX_YEAR: i64 = 2147483647;

pub open spec fn is_leap_year(y: int) -> bool {
    (y % 4 == 0 && y % 100 != 0) || y % 400 == 0
}

pub open spec fn days_in_month(y: int, m: int) -> int {
    if m == 2 {
        if is_leap_year(y) {
            29
        } else {
            28
        }
    } else if m == 4 || m == 6 || m == 9 || m == 11 {
        30
    } else {
        31
    }
}

pub open spec fn wf_time(t: UtcTime) -> bool {
    &&& 1 <= t.year <= MAX_YEAR
    &&& 1 <= t.month <= 12
    &&& 1 <= t.day <= days_in_month(t.year as int, t.month as int)
    &&& t.hour <= 23
    &&& t.minute <= 59
    &&& t.second <= 59
}

/// Days between 1970-01-01 and the given civil date (negative for earlier
/// dates), by the standard era decomposition of the proleptic Gregorian
/// calendar: 146097-day eras of 400 years, counted from March so the leap
/// day is the last day of a shifted year.
pub open spec fn days_from_epoch(y: int, m: int, d: int) -> int {
    let yy = if m <= 2 {
        y - 1
    } else {
        y
    };
    let era = yy / 400;
    let yoe = yy % 400;
    let mp = (m + 9) % 12;
    let doy = (153 * mp + 2) / 5 + d - 1;
    let doe = yoe * 365 + yoe / 4 - yoe / 100 + doy;
    era * 146097 + doe - 719468
}

/// Seconds since the Unix epoch of a civil UTC time.
pub open spec fn ts_of(t: UtcTime) -> int {
    days_from_epoch(t.year as int, t.month as int, t.day as int) * 86400 + t.hour * 3600
        + t.minute * 60 + t.second
}

/// The civil day immediately before the given one.
pub open spec fn spec_prev_day(t: UtcTime) -> UtcTime {
    if t.day > 1 {
        UtcTime { day: (t.day - 1) as u8, ..t }
    } else if t.month > 1 {
        UtcTime {
            month: (t.month - 1) as u8,
            day: days_in_month(t.year as int, t.month as int - 1) as u8,
            ..t
        }
    } else {
        UtcTime { year: (t.year - 1) as i64, month: 12, day: 31, ..t }
    }
}

/// The UTC civil time of a local civil time at a fixed +10:00 offset:
/// ten hours earlier on the calendar.
pub open spec fn spec_utc_of_plus10(t: UtcTime) -> UtcTime {
    if t.hour >= 10 {
        UtcTime { hour: (t.hour - 10) as u8, ..t }
    } else {
        UtcTime { hour: (t.hour + 14) as u8, ..spec_prev_day(t) }
    }
}

/// Stepping to the previous civil day moves the day count back by one.
proof fn lemma_prev_day_days(t: UtcTime)
    requires
        wf_time(t),
        wf_time(spec_prev_day(t)),
    ensures
        days_from_epoch(
            spec_prev_day(t).year as int,
            spec_prev_day(t).month as int,
            spec_prev_day(t).day as int,
        ) == days_from_epoch(t.year as int, t.month as int, t.day as int) - 1,
{
    let y = t.year as int;
    let m = t.month as int;
    let d = t.day as int;
    if d > 1 {
    } else if m == 3 {
        lemma_feb_mar_boundary(y);
    } else if m > 1 {
        if m == 2 {
            assert(days_from_epoch(y, 1, 31) == days_from_epoch(y, 2, 1) - 1);
        } else if m == 4 {
            assert(days_from_epoch(y, 3, 31) == days_from_epoch(y, 4, 1) - 1);
        } else if m == 5 {
            assert(days_from_epoch(y, 4, 30) == days_from_epoch(y, 5, 1) - 1);
        } else if m == 6 {
            assert(days_from_epoch(y, 5, 31) == days_from_epoch(y, 6, 1) - 1);
        } else if m == 7 {
            assert(days_from_epoch(y, 6, 30) == days_from_epoch(y, 7, 1) - 1);
        } else if m == 8 {
            assert(days_from_epoch(y, 7, 31) == days_from_epoch(y, 8, 1) - 1);
        } else if m == 9 {
            assert(days_from_epoch(y, 8, 31) == days_from_epoch(y, 9, 1) - 1);
        } else if m == 10 {
            assert(days_from_epoch(y, 9, 30) == days_from_epoch(y, 10, 1) - 1);
        } else if m == 11 {
            assert(days_from_epoch(y, 10, 31) == days_from_epoch(y, 11, 1) - 1);
        } else {
            assert(m == 12);
            assert(days_from_epoch(y, 11, 30) == days_from_epoch(y, 12, 1) - 1);
        }
    } else {
        assert(m == 1);
    }
}

/// Increasing a non-negative number by one raises its quotient by a
/// divisor exactly when the new number is a multiple of it.
proof fn lemma_div_step(q: int, d: int)
    requires
        q >= 0,
        d >= 1,
    ensures
        (q + 1) / d == q / d + if (q + 1) % d == 0 {
            1int
        } else {
            0int
        },
        (q + 1) % d == if q % d == d - 1 {
            0int
        } else {
            q % d + 1
        },
{
    vstd::arithmetic::div_mod::lemma_fundamental_div_mod(q, d);
    if q % d == d - 1 {
        assert(q + 1 == (q / d + 1) * d + 0) by (nonlinear_arith)
            requires
                q == d * (q / d) + (d - 1),
        ;
        vstd::arithmetic::div_mod::lemma_fundamental_div_mod_converse(q + 1, d, q / d + 1, 0);
    } else {
        assert(q + 1 == (q / d) * d + (q % d + 1)) by (nonlinear_arith)
            requires
                q == d * (q / d) + q % d,
        ;
        vstd::arithmetic::div_mod::lemma_fundamental_div_mod_converse(q + 1, d, q / d, q % d + 1);
    }
}

/// The last of February and the first of March are neighbours on the day
/// count, across the era arithmetic and the leap rule.
proof fn lemma_feb_mar_boundary(y: int)
    requires
        y >= 1,
    ensures
        days_from_epoch(y, 2, days_in_month(y, 2)) == days_from_epoch(y, 3, 1) - 1,
{
    let b = y - 1;
    let era_b = b / 400;
    let q = b % 400;
    vstd::arithmetic::div_mod::lemma_fundamental_div_mod(b, 400);
    assert(0 <= q < 400);
    lemma_div_step(q, 400);
    lemma_div_step(q, 4);
    lemma_div_step(q, 100);
    // How y relates to the shifted-year remainder: y == 400 * era_b + q + 1.
    vstd::arithmetic::div_mod::lemma_mod_multiples_vanish(100 * era_b, q + 1, 4);
    assert(y % 4 == (q + 1) % 4) by {
        assert(y == 4 * (100 * era_b) + (q + 1));
    }
    vstd::arithmetic::div_mod::lemma_mod_multiples_vanish(4 * era_b, q + 1, 100);
    assert(y % 100 == (q + 1) % 100) by {
        assert(y == 100 * (4 * era_b) + (q + 1));
    }
    vstd::arithmetic::div_mod::lemma_mod_multiples_vanish(era_b, q + 1, 400);
    assert(y % 400 == (q + 1) % 400) by {
        assert(y == 400 * era_b + (q + 1));
    }
    if q == 399 {
        vstd::arithmetic::div_mod::lemma_fundamental_div_mod_converse(y, 400, era_b + 1, 0);
        assert(is_leap_year(y));
    } else {
        vstd::arithmetic::div_mod::lemma_fundamental_div_mod_converse(y, 400, era_b, q + 1);
        assert((q + 1) % 4 == 0 ==> (q + 1) / 4 == q / 4 + 1);
        if (q + 1) % 100 == 0 {
            vstd::arithmetic::div_mod::lemma_mod_breakdown(q + 1, 4, 25);
        }
    }
}

/// Reading a +10:00 local time as UTC moves the timestamp back exactly
/// ten hours, whenever both readings sit on the supported calendar.
pub proof fn lemma_utc_of_plus10_ts(t: UtcTime)
    requires
        wf_time(t),
        wf_time(spec_utc_of_plus10(t)),
    ensures
        ts_of(spec_utc_of_plus10(t)) == ts_of(t) - 36000,
{
    if t.hour >= 10 {
    } else {
        assert(wf_time(spec_prev_day(t))) by {
            let p = spec_prev_day(t);
            assert(p.year == spec_utc_of_plus10(t).year);
            assert(p.month == spec_utc_of_plus10(t).month);
            assert(p.day == spec_utc_of_plus10(t).day);
        }
        lemma_prev_day_days(t);
    }
}

/// Days in the month, executable side.
pub(crate) fn dim_exec(y: i64, m: u8) -> (r: u8)
    requires
        1 <= m <= 12,
        y >= 1,
    ensures
        r as int == days_in_month(y as int, m as int),
{
    if m == 2 {
        if (y % 4 == 0 && y % 100 != 0) || y % 400 == 0 {
            29
        } else {
            28
        }
    } else if m == 4 || m == 6 || m == 9 || m == 11 {
        30
    } else {
        31
    }
}

impl UtcTime {
    /// Seconds since the Unix epoch.
    pub fn timestamp(&self) -> (ts: i64)
        requires
            wf_time(*self),
        ensures
            ts == ts_of(*self),
    {
        let yy: u64 = if self.month <= 2 {
            (self.year - 1) as u64
        } else {
            self.year as u64
        };
        let era: u64 = yy / 400;
        let yoe: u64 = yy % 400;
        let mp: u64 = ((self.month as u64) + 9) % 12;
        let doy: u64 = (153 * mp + 2) / 5 + (self.day as u64) - 1;
        let doe: u64 = yoe * 365 + yoe / 4 - yoe / 100 + doy;
        let days: u64 = era * 146097 + doe;
        let secs: u64 = days * 86400 + (self.hour as u64) * 3600 + (self.minute as u64) * 60 + (
        self.second as u64);
        (secs as i64) - 719468 * 86400
    }

    /// Steps this time back ten hours, from a +10:00 local reading to UTC.
    pub fn to_utc_from_plus10(&self) -> (r: UtcTime)
        requires
            wf_time(*self),
        ensures
            r == spec_utc_of_plus10(*self),
            self.year >= 2 ==> wf_time(r),
            wf_time(r) <==> !(self.year == 1 && self.month == 1 && self.day == 1 && self.hour
                < 10),
    {
        if self.hour >= 10 {
            UtcTime { hour: self.hour - 10, ..*self }
        } else if self.day > 1 {
            UtcTime { hour: self.hour + 14, day: self.day - 1, ..*self }
        } else if self.month > 1 {
            let pm: u8 = self.month - 1;
            let dim: u8 = if pm == 2 {
                if (self.year % 4 == 0 && self.year % 100 != 0) || self.year % 400 == 0 {
                    29
                } else {
                    28
                }
            } else if pm == 4 || pm == 6 || pm == 9 || pm == 11 {
                30
            } else {
                31
            };
            UtcTime { hour: self.hour + 14, month: pm, day: dim, ..*self }
        } else {
            UtcTime { hour: self.hour + 14, year: self.year - 1, month: 12, day: 31, ..*self }
        }
    }
}

} // verus!
