//! Julian Day conversion and the lunar phase fraction.
//!
//! A Julian Day is held in nanodays (billionths of a day), so the noon-UTC
//! Julian Day of a calendar date is an exact multiple of `NANOS_PER_DAY` and
//! the mean synodic month (29.530588853 days) is the exact integer
//! `SYNODIC_NANODAYS`. A phase fraction is held in billionths of a cycle:
//! 0 is new moon, `PHASE_ONE / 2` is full moon.

use vstd::prelude::*;
use crate::date::CalendarDate;
use crate::date::days_in_month_spec;
use crate::date::valid_date;
use vstd::arithmetic::div_mod::lemma_fundamental_div_mod;
use vstd::arithmetic::div_mod::lemma_fundamental_div_mod_converse_mod;
use vstd::arithmetic::div_mod::lemma_mod_add_multiples_vanish;
use vstd::arithmetic::div_mod::lemma_mod_division_less_than_divisor;

verus! {

/// Nanodays per day.
pub const NANOS_PER_DAY: i64 = 1_000_000_000;

/// Mean synodic month, in nanodays: 29.530588853 days.
pub const SYNODIC_NANODAYS: i64 = 29_530_588_853;

/// Reference new-moon epoch, in nanodays: Julian Day 2451550.1.
pub const REF_JD_NANODAYS: i64 = 2_451_550_100_000_000;

/// One full phase cycle, in phase units (billionths of a cycle).
pub const PHASE_ONE: i64 = 1_000_000_000;

/// Noon-UTC Julian Day of a calendar date, in nanodays, by the civil-calendar
/// formula: January and February count as months 13 and 14 of the previous
/// year, and the century term b corrects for the Gregorian reform. Every
/// division rounds toward negative infinity (which `int` division by a
/// positive divisor does), so the day count stays continuous across
/// negative-year century boundaries. The noon Julian Day of any calendar
/// date is a whole number of days.
pub open spec fn julian_day_nanos_spec(y: int, m: int, d: int) -> int {
    let yy = if m <= 2 {
        y - 1
    } else {
        y
    };
    let mm = if m <= 2 {
        m + 12
    } else {
        m
    };
    let a = yy / 100;
    let b = 2 - a + a / 4;
    let days = (1461 * (yy + 4716)) / 4 + (306001 * (mm + 1)) / 10000 + d + b - 1524;
    days * (NANOS_PER_DAY as int)
}

/// Phase fraction of a Julian Day, in billionths of a cycle: the fractional
/// part of (jd - reference epoch) / synodic month, scaled by `PHASE_ONE` and
/// rounded down. Always in [0, PHASE_ONE).
pub open spec fn phase_nanos_spec(jd_nanos: int) -> int {
    let along = (jd_nanos - REF_JD_NANODAYS) % (SYNODIC_NANODAYS as int);
    along * (PHASE_ONE as int) / (SYNODIC_NANODAYS as int)
}

/// Noon-UTC Julian Day of a valid calendar date, in nanodays.
pub fn julian_day_noon_utc(date: CalendarDate) -> (jd: i64)
    requires
        date.valid(),
    ensures
        jd == julian_day_nanos_spec(date.year as int, date.month as int, date.day as int),
        -2_000_000_000_000_000 <= jd <= 6_000_000_000_000_000,
        jd as int % (NANOS_PER_DAY as int) == 0,
{
    let shift: bool = date.month <= 2;
    let yy: i64 = if shift {
        date.year as i64 - 1
    } else {
        date.year as i64
    };
    let mm: i64 = if shift {
        date.month as i64 + 12
    } else {
        date.month as i64
    };
    // The century term needs floor division of values that may be negative;
    // shifting by a multiple of the divisor keeps the dividend nonnegative
    // without changing the floor.
    let a: i64 = (((yy + 10_000) as u64) / 100) as i64 - 100;
    proof {
        vstd::arithmetic::div_mod::lemma_hoist_over_denominator(yy as int, 100, 100);
        assert((yy + 10_000) as int == yy + 100 * 100);
    }
    let a4: i64 = (((a + 100) as u64) / 4) as i64 - 25;
    proof {
        vstd::arithmetic::div_mod::lemma_hoist_over_denominator(a as int, 25, 4);
        assert((a + 100) as int == a + 25 * 4);
    }
    let b: i64 = 2 - a + a4;
    // 1461 * (yy + 4716) may be negative; shifting by 8_000_000 (a multiple
    // of 4) keeps the dividend nonnegative without changing the floor.
    let t: i64 = 1461 * (yy + 4716);
    let f1: i64 = (((t + 8_000_000) as u64) / 4) as i64 - 2_000_000;
    proof {
        vstd::arithmetic::div_mod::lemma_hoist_over_denominator(t as int, 2_000_000, 4);
        assert((t + 8_000_000) as int == t + 2_000_000 * 4);
    }
    let f2: i64 = (((306001 * (mm + 1)) as u64) / 10000) as i64;
    let days: i64 = f1 + f2 + date.day as i64 + b - 1524;
    proof {
        let nd = NANOS_PER_DAY as int;
        vstd::arithmetic::div_mod::lemma_mod_multiples_basic(days as int, nd);
    }
    days * NANOS_PER_DAY
}

/// Phase fraction of a Julian Day given in nanodays, in billionths of a
/// cycle, always in [0, PHASE_ONE).
pub fn phase_from_julian_day(jd_nanos: i64) -> (p: i64)
    ensures
        p == phase_nanos_spec(jd_nanos as int),
        0 <= p < PHASE_ONE,
{
    let delta: i128 = jd_nanos as i128 - REF_JD_NANODAYS as i128;
    let syn: u128 = SYNODIC_NANODAYS as u128;
    let along: u128 = if delta >= 0 {
        (delta as u128) % syn
    } else {
        let r: u128 = ((-delta) as u128) % syn;
        if r == 0 {
            0
        } else {
            syn - r
        }
    };
    proof {
        let d = delta as int;
        let m = syn as int;
        if d >= 0 {
            assert(along as int == d % m);
        } else {
            lemma_fundamental_div_mod(-d, m);
            let q = (-d) / m;
            let r0 = (-d) % m;
            if r0 == 0 {
                assert(d == m * (-q) + 0) by {
                    assert(-d == m * q + r0);
                }
                lemma_fundamental_div_mod_converse_mod(d, m, -q, 0);
            } else {
                assert(d == m * (-q - 1) + (m - r0)) by {
                    assert(-d == m * q + r0);
                }
                lemma_fundamental_div_mod_converse_mod(d, m, -q - 1, m - r0);
            }
            assert(along as int == d % m);
        }
        lemma_mod_division_less_than_divisor(d, m);
        assert(along < 29_530_588_853u128);
    }
    let scaled: u128 = along * 1_000_000_000u128;
    proof {
        assert(scaled as int == along as int * (PHASE_ONE as int));
    }
    let p: i64 = (scaled / syn) as i64;
    proof {
        let m = syn as int;
        let ph = PHASE_ONE as int;
        assert(scaled as int / m < ph) by {
            vstd::arithmetic::mul::lemma_mul_strict_inequality(along as int, m, ph);
            vstd::arithmetic::mul::lemma_mul_is_commutative(m, ph);
            vstd::arithmetic::div_mod::lemma_multiply_divide_lt(scaled as int, m, ph);
        }
        vstd::arithmetic::div_mod::lemma_div_pos_is_pos(scaled as int, m);
    }
    p
}

/// Phase fraction of a valid calendar date at noon UTC, in billionths of a
/// cycle: 0 is new moon, 500_000_000 is full moon. Always in [0, PHASE_ONE).
pub fn moon_phase(date: CalendarDate) -> (p: i64)
    requires
        date.valid(),
    ensures
        p == phase_nanos_spec(
            julian_day_nanos_spec(date.year as int, date.month as int, date.day as int),
        ),
        0 <= p < PHASE_ONE,
{
    let jd = julian_day_noon_utc(date);
    phase_from_julian_day(jd)
}

/// The phase fraction is periodic in the synodic month: moving any Julian Day
/// forward by exactly one mean synodic month leaves the phase unchanged.
pub proof fn lemma_phase_periodic(jd_nanos: int)
    ensures
        phase_nanos_spec(jd_nanos + SYNODIC_NANODAYS) == phase_nanos_spec(jd_nanos),
{
    let m = SYNODIC_NANODAYS as int;
    lemma_mod_add_multiples_vanish(jd_nanos - REF_JD_NANODAYS, m);
    assert(jd_nanos + SYNODIC_NANODAYS - REF_JD_NANODAYS == m + (jd_nanos - REF_JD_NANODAYS));
}

/// The reference epoch itself is exactly a new moon: its phase fraction is 0.
pub proof fn lemma_phase_at_epoch()
    ensures
        phase_nanos_spec(REF_JD_NANODAYS as int) == 0,
{
    let m = SYNODIC_NANODAYS as int;
    vstd::arithmetic::div_mod::lemma_mod_self_0(m);
    assert((0int) % m == 0) by {
        vstd::arithmetic::div_mod::lemma_small_mod(0, m as nat);
    }
    assert((0int) * (PHASE_ONE as int) / m == 0) by {
        vstd::arithmetic::div_mod::lemma_div_of0(m);
    }
}


/// The calendar day after a date.
pub open spec fn next_day(y: int, m: int, d: int) -> (int, int, int) {
    if d < days_in_month_spec(y, m) {
        (y, m, d + 1)
    } else if m < 12 {
        (y, m + 1, 1)
    } else {
        (y + 1, 1, 1)
    }
}

/// Stepping a dividend by one: the quotient rises exactly when the old
/// remainder was the largest possible, and the remainder wraps to zero then.
proof fn lemma_step(x: int, d: int)
    requires
        d > 0,
    ensures
        (x + 1) / d == x / d + if x % d == d - 1 {
            1int
        } else {
            0int
        },
        (x + 1) % d == if x % d == d - 1 {
            0int
        } else {
            x % d + 1
        },
{
    lemma_fundamental_div_mod(x, d);
    lemma_mod_division_less_than_divisor(x, d);
    let q = x / d;
    let r = x % d;
    if r == d - 1 {
        assert(x + 1 == (q + 1) * d + 0) by (nonlinear_arith)
            requires
                x == d * q + r,
                r == d - 1,
        ;
        vstd::arithmetic::div_mod::lemma_fundamental_div_mod_converse(x + 1, d, q + 1, 0);
    } else {
        assert(x + 1 == q * d + (r + 1)) by (nonlinear_arith)
            requires
                x == d * q + r,
        ;
        vstd::arithmetic::div_mod::lemma_fundamental_div_mod_converse(x + 1, d, q, r + 1);
    }
}

/// The values of the month term of the civil-calendar formula.
proof fn lemma_month_term_table()
    ensures
        (306001 * 4) / 10000 == 122,
        (306001 * 5) / 10000 == 153,
        (306001 * 6) / 10000 == 183,
        (306001 * 7) / 10000 == 214,
        (306001 * 8) / 10000 == 244,
        (306001 * 9) / 10000 == 275,
        (306001 * 10) / 10000 == 306,
        (306001 * 11) / 10000 == 336,
        (306001 * 12) / 10000 == 367,
        (306001 * 13) / 10000 == 397,
        (306001 * 14) / 10000 == 428,
        (306001 * 15) / 10000 == 459,
{
}

/// The day count is continuous: the noon Julian Day of the calendar day
/// after a valid date is exactly one day later, across month ends, year
/// ends, leap days and century years alike; so the count is strictly
/// increasing in calendar order, with no gaps or repeats.
pub proof fn lemma_julian_day_continuous(y: int, m: int, d: int)
    requires
        valid_date(y, m, d),
        !(y == 9999 && m == 12 && d == 31),
    ensures
        valid_date(next_day(y, m, d).0, next_day(y, m, d).1, next_day(y, m, d).2),
        julian_day_nanos_spec(next_day(y, m, d).0, next_day(y, m, d).1, next_day(y, m, d).2)
            == julian_day_nanos_spec(y, m, d) + NANOS_PER_DAY,
{
    lemma_month_term_table();
    if d < days_in_month_spec(y, m) {
        // Within a month only the day term moves.
    } else if m == 2 {
        // February to March: the 365.25-day term, the month term, the month
        // length and the century correction move together; their sum always
        // comes to one day, which is exactly the leap rule.
        let x = 1461 * (y + 4715);
        assert((1461 * (y - 1 + 4716)) / 4 == x / 4);
        assert((1461 * (y + 4716)) / 4 == (x + 1) / 4 + 365) by {
            vstd::arithmetic::div_mod::lemma_hoist_over_denominator(x + 1, 365, 4);
            assert(1461 * (y + 4716) == x + 1 + 365 * 4) by (nonlinear_arith)
                requires
                    x == 1461 * (y + 4715),
            ;
        }
        lemma_step(x, 4);
        assert(x % 4 == (y + 3) % 4) by {
            assert(x == 4 * (365 * (y + 4715)) + (y + 4715)) by (nonlinear_arith)
                requires
                    x == 1461 * (y + 4715),
            ;
            vstd::arithmetic::div_mod::lemma_mod_multiples_vanish(365 * (y + 4715), y + 4715, 4);
            assert(y + 4715 == 4 * 1178 + (y + 3));
            vstd::arithmetic::div_mod::lemma_mod_multiples_vanish(1178, y + 3, 4);
        }
        // (y + 3) % 4 == 3 holds exactly when y % 4 == 0.
        lemma_step(y + 3, 4);
        assert((y + 4) % 4 == y % 4) by {
            lemma_mod_add_multiples_vanish(y, 4);
        }
        lemma_mod_division_less_than_divisor(y + 3, 4);
        assert((x % 4 == 3) == (y % 4 == 0));
        // The century index steps exactly at century years.
        lemma_step(y - 1, 100);
        lemma_mod_division_less_than_divisor(y - 1, 100);
        let a1 = (y - 1) / 100;
        let a2 = y / 100;
        assert(((y - 1) % 100 == 99) == (y % 100 == 0));
        if y % 100 == 0 {
            assert(a2 == a1 + 1);
            lemma_step(a1, 4);
            lemma_mod_division_less_than_divisor(a1, 4);
            assert((a1 % 4 == 3) == (a2 % 4 == 0));
            // A century year is divisible by 400 exactly when its century
            // index is divisible by 4, and is always divisible by 4.
            lemma_fundamental_div_mod(y, 100);
            lemma_fundamental_div_mod(a2, 4);
            lemma_mod_division_less_than_divisor(a2, 4);
            let qq = a2 / 4;
            let rr = a2 % 4;
            assert(y == qq * 400 + 100 * rr) by (nonlinear_arith)
                requires
                    y == 100 * a2 + y % 100,
                    y % 100 == 0,
                    a2 == 4 * qq + rr,
            ;
            vstd::arithmetic::div_mod::lemma_fundamental_div_mod_converse(y, 400, qq, 100 * rr);
            assert((y % 400 == 0) == (rr == 0));
            assert(y == (25 * a2) * 4 + 0) by (nonlinear_arith)
                requires
                    y == 100 * a2 + y % 100,
                    y % 100 == 0,
            ;
            vstd::arithmetic::div_mod::lemma_fundamental_div_mod_converse(y, 4, 25 * a2, 0);
            assert(y % 4 == 0);
        } else {
            assert(a2 == a1);
        }
        assert(julian_day_nanos_spec(y, 3, 1) == julian_day_nanos_spec(y, 2, d) + NANOS_PER_DAY);
    } else {
        // A month end other than February: the month term steps by exactly
        // the month length (the year term also steps at the year end).
    }
}

} // verus!
