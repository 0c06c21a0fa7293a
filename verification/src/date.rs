//! Calendar dates and the weekday arithmetic the event generator needs:
//! a proleptic Gregorian date as (year, month, day), a serial day number
//! for weekday computation, and day-stepping for anchor dates.

use vstd::arithmetic::div_mod::{
    lemma_fundamental_div_mod, lemma_fundamental_div_mod_converse, lemma_mod_multiples_vanish,
};
use vstd::prelude::*;

verus! {

/// A calendar date. Only values satisfying `wf` describe real dates.
#[derive(Clone, Copy, Debug, PartialEq, Eq, Structural)]
pub struct Date {
    pub year: u32,
    pub month: u32,
    pub day: u32,
}

pub open spec fn is_leap(y: int) -> bool {
    y % 4 == 0 && (y % 100 != 0 || y % 400 == 0)
}

pub open spec fn days_in_month(y: int, m: int) -> int {
    if m == 2 {
        if is_leap(y) {
            29
        } else {
            28
        }
    } else if m == 4 || m == 6 || m == 9 || m == 11 {
        30
    } else {
        31
    }
}

pub open spec fn valid_ymd(y: int, m: int, d: int) -> bool {
    1 <= y && 1 <= m <= 12 && 1 <= d <= days_in_month(y, m)
}

impl Date {
    pub open spec fn valid(self) -> bool {
        valid_ymd(self.year as int, self.month as int, self.day as int)
    }

    /// A date the parser or a caller may hand in: valid and with a
    /// four-digit year, so that a week of headroom always exists.
    pub open spec fn wf(self) -> bool {
        self.valid() && self.year <= 9999
    }
}

/// Days contributed by the whole years up to the start of the shifted
/// year `y` (counted from March, as in civil-calendar day arithmetic).
pub open spec fn year_base(y: int) -> int {
    let era = y / 400;
    let yoe = y - era * 400;
    era * 146097 + yoe * 365 + yoe / 4 - yoe / 100
}

/// Serial day number of a date: consecutive dates get consecutive
/// numbers, which makes weekday arithmetic plain modular arithmetic.
pub open spec fn day_number(d: Date) -> int {
    let yy: int = if d.month <= 2 {
        d.year - 1
    } else {
        d.year as int
    };
    let mp: int = if d.month > 2 {
        d.month - 3
    } else {
        d.month + 9
    };
    year_base(yy) + (153 * mp + 2) / 5 + d.day - 1
}

/// Weekday of a serial day number, 0 = Monday … 6 = Sunday.
pub open spec fn weekday_index(n: int) -> int {
    (n + 2) % 7
}

/// The next calendar day.
pub open spec fn succ_date(d: Date) -> Date {
    if (d.day as int) < days_in_month(d.year as int, d.month as int) {
        Date { year: d.year, month: d.month, day: (d.day + 1) as u32 }
    } else if d.month < 12 {
        Date { year: d.year, month: (d.month + 1) as u32, day: 1 }
    } else {
        Date { year: (d.year + 1) as u32, month: 1, day: 1 }
    }
}

/// The date `n` days after `d`.
pub open spec fn plus_days(d: Date, n: nat) -> Date
    decreases n,
{
    if n == 0 {
        d
    } else {
        plus_days(succ_date(d), (n - 1) as nat)
    }
}

/// Dividing by `m` steps up by one exactly at the multiples of `m`.
proof fn lemma_div_step(r: int, m: int)
    requires
        1 <= r,
        1 <= m,
    ensures
        r / m - (r - 1) / m == if r % m == 0 {
            1int
        } else {
            0int
        },
{
    let a = r / m;
    let b = r % m;
    lemma_fundamental_div_mod(r, m);
    if b == 0 {
        assert(r == m * a);
        assert(a >= 1) by {
            if a <= 0 {
                assert(m * a <= 0) by (nonlinear_arith)
                    requires
                        m >= 1,
                        a <= 0,
                ;
            }
        }
        assert(r - 1 == (a - 1) * m + (m - 1)) by (nonlinear_arith)
            requires
                r == m * a,
        ;
        lemma_fundamental_div_mod_converse(r - 1, m, a - 1, m - 1);
    } else {
        assert(r - 1 == a * m + (b - 1)) by (nonlinear_arith)
            requires
                r == m * a + b,
        ;
        lemma_fundamental_div_mod_converse(r - 1, m, a, b - 1);
    }
}

/// One more whole year adds 365 days, or 366 across a leap year.
proof fn lemma_year_base_step(y: int)
    requires
        1 <= y,
    ensures
        year_base(y) - year_base(y - 1) == 365 + if is_leap(y) {
            1int
        } else {
            0int
        },
{
    let q = y / 400;
    let r = y % 400;
    lemma_fundamental_div_mod(y, 400);
    assert(y == 400 * q + r);
    if r == 0 {
        // y is a multiple of 400: a leap year.
        assert(y % 4 == 0) by {
            lemma_mod_multiples_vanish(100 * q, 0, 4);
            assert(4 * (100 * q) + 0 == y) by (nonlinear_arith)
                requires
                    y == 400 * q,
            ;
        }
        assert(y % 400 == 0);
        assert(is_leap(y));
        assert(y - 1 == (q - 1) * 400 + 399) by (nonlinear_arith)
            requires
                y == 400 * q,
        ;
        lemma_fundamental_div_mod_converse(y - 1, 400, q - 1, 399);
        assert((y - 1) / 400 == q - 1);
        assert((y - 1) % 400 == 399);
        assert(year_base(y) == q * 146097) by {
            assert(y - (y / 400) * 400 == 0);
        }
        assert(year_base(y - 1) == (q - 1) * 146097 + 399 * 365 + 399int / 4 - 399int / 100);
        assert(399int / 4 == 99);
        assert(399int / 100 == 3);
        assert(year_base(y) - year_base(y - 1) == 366) by (nonlinear_arith)
            requires
                year_base(y) == q * 146097,
                year_base(y - 1) == (q - 1) * 146097 + 399 * 365 + 99 - 3,
        ;
    } else {
        assert(1 <= r < 400);
        assert(y - 1 == q * 400 + (r - 1)) by (nonlinear_arith)
            requires
                y == 400 * q + r,
        ;
        lemma_fundamental_div_mod_converse(y - 1, 400, q, r - 1);
        assert((y - 1) / 400 == q);
        assert((y - 1) % 400 == r - 1);
        let yoe = y - (y / 400) * 400;
        let yoe1 = (y - 1) - ((y - 1) / 400) * 400;
        assert(yoe == r);
        assert(yoe1 == r - 1);
        lemma_div_step(r, 4);
        lemma_div_step(r, 100);
        // y and r agree modulo 4 and modulo 100
        assert(y % 4 == r % 4) by {
            lemma_mod_multiples_vanish(100 * q, r, 4);
            assert(4 * (100 * q) + r == y) by (nonlinear_arith)
                requires
                    y == 400 * q + r,
            ;
        }
        assert(y % 100 == r % 100) by {
            lemma_mod_multiples_vanish(4 * q, r, 100);
            assert(100 * (4 * q) + r == y) by (nonlinear_arith)
                requires
                    y == 400 * q + r,
            ;
        }
        if r % 100 == 0 {
            // a century year inside the 400-year cycle: not a leap year
            assert(r % 4 == 0) by {
                let k = r / 100;
                lemma_fundamental_div_mod(r, 100);
                assert(r == 4 * (25 * k) + 0) by (nonlinear_arith)
                    requires
                        r == 100 * k,
                ;
                lemma_mod_multiples_vanish(25 * k, 0, 4);
            }
            assert(!is_leap(y));
        }
    }
}

/// Serial day numbers of consecutive dates are consecutive.
pub proof fn lemma_succ_day_number(d: Date)
    requires
        d.valid(),
        d.year < 0xFFFF_FFFF,
    ensures
        succ_date(d).valid(),
        day_number(succ_date(d)) == day_number(d) + 1,
{
    let y = d.year as int;
    let m = d.month as int;
    if (d.day as int) < days_in_month(y, m) {
        // same month: only the day-of-month term changes
    } else if d.month == 2 {
        // February rolling into March: the shifted year advances
        lemma_year_base_step(y);
        assert((153int * 11 + 2) / 5 == 337);
        assert((153int * 0 + 2) / 5 == 0);
    } else if d.month < 12 {
        // month rollover inside the same shifted year: the day-of-year
        // constants differ by exactly the month's length
        assert((153int * 10 + 2) / 5 == 306);
        assert((153int * 0 + 2) / 5 == 0);
        assert((153int * 1 + 2) / 5 == 31);
        assert((153int * 2 + 2) / 5 == 61);
        assert((153int * 3 + 2) / 5 == 92);
        assert((153int * 4 + 2) / 5 == 122);
        assert((153int * 5 + 2) / 5 == 153);
        assert((153int * 6 + 2) / 5 == 184);
        assert((153int * 7 + 2) / 5 == 214);
        assert((153int * 8 + 2) / 5 == 245);
        assert((153int * 9 + 2) / 5 == 275);
        assert((153int * 11 + 2) / 5 == 337);
    } else {
        // December 31st: the shifted year is unchanged, since January
        // belongs to the previous shifted year
        assert((153int * 9 + 2) / 5 == 275);
        assert((153int * 10 + 2) / 5 == 306);
    }
}

/// `n` days ahead lies `n` further along the serial day numbers.
pub proof fn lemma_plus_days_number(d: Date, n: nat)
    requires
        d.valid(),
        d.year + n < 0xFFFF_FFFF,
    ensures
        plus_days(d, n).valid(),
        plus_days(d, n).year <= d.year + n,
        day_number(plus_days(d, n)) == day_number(d) + n,
    decreases n,
{
    if n > 0 {
        lemma_succ_day_number(d);
        assert(succ_date(d).year <= d.year + 1);
        lemma_plus_days_number(succ_date(d), (n - 1) as nat);
    }
}

/// Computes the serial day number.
pub fn day_number_exec(d: &Date) -> (r: u64)
    requires
        d.valid(),
    ensures
        r as int == day_number(*d),
{
    let yy: u64 = if d.month <= 2 {
        (d.year - 1) as u64
    } else {
        d.year as u64
    };
    let era: u64 = yy / 400;
    let yoe: u64 = yy - era * 400;
    let mp: u64 = if d.month > 2 {
        (d.month - 3) as u64
    } else {
        (d.month + 9) as u64
    };
    let doy: u64 = (153 * mp + 2) / 5 + d.day as u64 - 1;
    proof {
        lemma_fundamental_div_mod(yy as int, 400);
        vstd::arithmetic::div_mod::lemma_mod_bound(yy as int, 400);
    }
    era * 146097 + yoe * 365 + yoe / 4 - yoe / 100 + doy
}

/// Weekday of a date, as an index with 0 = Monday … 6 = Sunday.
pub fn weekday_index_exec(d: &Date) -> (r: u64)
    requires
        d.valid(),
    ensures
        r as int == weekday_index(day_number(*d)),
        r < 7,
{
    let n = day_number_exec(d);
    (n + 2) % 7
}

/// The next calendar day.
pub fn next_date(d: &Date) -> (r: Date)
    requires
        d.valid(),
        d.year < 0xFFFF_FFFF,
    ensures
        r == succ_date(*d),
        r.valid(),
{
    proof {
        lemma_succ_day_number(*d);
    }
    let dim: u32 = if d.month == 2 {
        let leap = d.year % 4 == 0 && (d.year % 100 != 0 || d.year % 400 == 0);
        if leap {
            29
        } else {
            28
        }
    } else if d.month == 4 || d.month == 6 || d.month == 9 || d.month == 11 {
        30
    } else {
        31
    };
    if d.day < dim {
        Date { year: d.year, month: d.month, day: d.day + 1 }
    } else if d.month < 12 {
        Date { year: d.year, month: d.month + 1, day: 1 }
    } else {
        Date { year: d.year + 1, month: 1, day: 1 }
    }
}

/// The date `n` days after `d`, for small `n`.
pub fn plus_days_exec(d: &Date, n: u32) -> (r: Date)
    requires
        d.valid(),
        d.year + n < 0xFFFF_FFFF,
    ensures
        r == plus_days(*d, n as nat),
        r.valid(),
{
    let mut cur: Date = *d;
    let mut k: u32 = 0;
    while k < n
        invariant
            k <= n,
            cur == plus_days(*d, k as nat),
            cur.valid(),
            cur.year <= d.year + k,
            d.year + n < 0xFFFF_FFFF,
            d.valid(),
        decreases n - k,
    {
        proof {
            lemma_plus_days_number(*d, k as nat);
            lemma_succ_day_number(cur);
            lemma_plus_days_step(*d, k as nat);
        }
        cur = next_date(&cur);
        k = k + 1;
    }
    cur
}

/// Appending one more day to a run of day steps.
proof fn lemma_plus_days_step(d: Date, n: nat)
    ensures
        plus_days(d, n + 1) == succ_date(plus_days(d, n)),
    decreases n,
{
    if n == 0 {
        assert(plus_days(d, 1) == plus_days(succ_date(d), 0));
    } else {
        lemma_plus_days_step(succ_date(d), (n - 1) as nat);
        assert(plus_days(d, n + 1) == plus_days(succ_date(d), n));
        assert(plus_days(d, n) == plus_days(succ_date(d), (n - 1) as nat));
    }
}

/// First date on or after `start` whose weekday index is `ti`.
pub open spec fn anchor_spec(start: Date, ti: int) -> Date {
    plus_days(start, ((ti - weekday_index(day_number(start))) % 7) as nat)
}

/// Shifting the start date by a whole week shifts the anchor by the
/// same whole week and leaves its weekday unchanged.
pub proof fn lemma_anchor_week_shift(start: Date, ti: int)
    requires
        start.wf(),
    ensures
        day_number(anchor_spec(plus_days(start, 7), ti)) == day_number(anchor_spec(start, ti)) + 7,
        weekday_index(day_number(anchor_spec(plus_days(start, 7), ti))) == weekday_index(
            day_number(anchor_spec(start, ti)),
        ),
{
    let n0 = day_number(start);
    lemma_plus_days_number(start, 7);
    let s7 = plus_days(start, 7);
    assert(day_number(s7) == n0 + 7);
    assert(weekday_index(n0 + 7) == weekday_index(n0)) by {
        lemma_mod_multiples_vanish(1, n0 + 2, 7);
    }
    let k = ((ti - weekday_index(n0)) % 7) as nat;
    assert(0 <= (ti - weekday_index(n0)) % 7 < 7) by {
        vstd::arithmetic::div_mod::lemma_mod_bound(ti - weekday_index(n0), 7);
    }
    lemma_plus_days_number(start, 7 + k);
    lemma_plus_days_number(s7, k);
    lemma_plus_days_number(start, k);
    assert(day_number(plus_days(s7, k)) == n0 + 7 + k);
    assert(day_number(plus_days(start, k)) == n0 + k);
    lemma_mod_multiples_vanish(1, n0 + k + 2, 7);
}

} // verus!
