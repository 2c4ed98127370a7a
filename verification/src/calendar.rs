//! The proleptic Gregorian calendar: which civil date a clock reading falls
//! on, and that date as the ISO text the daily gauntlet is seeded from.

use crate::formula::push_char;
use vstd::prelude::*;

verus! {

pub open spec fn is_leap(y: int) -> bool {
    (y % 4 == 0 && y % 100 != 0) || y % 400 == 0
}

/// Days in month `m` (1 = January) of year `y`.
pub open spec fn month_len(y: int, m: int) -> int {
    if m == 2 {
        if is_leap(y) {
            29
        } else {
            28
        }
    } else if m == 4 || m == 6 || m == 9 || m == 11 {
        30
    } else {
        31
    }
}

/// Days of year `y` before the first of month `m`.
pub open spec fn days_before_month(y: int, m: int) -> int
    decreases m,
{
    if m <= 1 {
        0
    } else {
        days_before_month(y, m - 1) + month_len(y, m - 1)
    }
}

/// Leap years from year 1 up to, not including, year `y` (negative when
/// `y` is before year 1).
pub open spec fn leaps_before(y: int) -> int {
    (y - 1) / 4 - (y - 1) / 100 + (y - 1) / 400
}

/// Days from 1970-01-01 to the first of January of year `y`.
pub open spec fn days_before_year(y: int) -> int {
    365 * (y - 1970) + leaps_before(y) - leaps_before(1970)
}

/// Days from 1970-01-01 to the date y-m-d.
pub open spec fn day_number(y: int, m: int, d: int) -> int {
    days_before_year(y) + days_before_month(y, m) + d - 1
}

pub open spec fn is_date(y: int, m: int, d: int) -> bool {
    1 <= m <= 12 && 1 <= d <= month_len(y, m)
}

// ----------------------------------------------------------- arithmetic --

/// Adding `k` multiples of `d` moves the quotient by `k` and keeps the
/// remainder.
proof fn lemma_shift(x: int, k: int, d: int)
    requires
        d > 0,
    ensures
        (x + d * k) / d == x / d + k,
        (x + d * k) % d == x % d,
{
    vstd::arithmetic::div_mod::lemma_fundamental_div_mod(x, d);
    assert(x + d * k == (x / d + k) * d + x % d) by (nonlinear_arith)
        requires
            x == d * (x / d) + x % d,
    ;
    vstd::arithmetic::div_mod::lemma_fundamental_div_mod_converse(x + d * k, d, x / d + k, x % d);
}

/// Stepping `x` by one moves `x / d` exactly when `x` is a multiple of `d`.
proof fn lemma_div_step(x: int, d: int)
    requires
        d > 0,
    ensures
        x / d - (x - 1) / d == (if x % d == 0 {
            1int
        } else {
            0int
        }),
{
    vstd::arithmetic::div_mod::lemma_fundamental_div_mod(x, d);
    let q = x / d;
    let r = x % d;
    assert(x - 1 == (q - 1) * d + (r + d - 1) && x - 1 == q * d + (r - 1)) by (nonlinear_arith)
        requires
            x == d * q + r,
    ;
    if r == 0 {
        vstd::arithmetic::div_mod::lemma_fundamental_div_mod_converse(x - 1, d, q - 1, d - 1);
    } else {
        vstd::arithmetic::div_mod::lemma_fundamental_div_mod_converse(x - 1, d, q, r - 1);
    }
}

/// Year `y` holds one leap day more than the year count alone when it is a
/// leap year.
proof fn lemma_leaps_step(y: int)
    ensures
        leaps_before(y + 1) == leaps_before(y) + (if is_leap(y) {
            1int
        } else {
            0int
        }),
{
    lemma_div_step(y, 4);
    lemma_div_step(y, 100);
    lemma_div_step(y, 400);
    if y % 100 == 0 {
        vstd::arithmetic::div_mod::lemma_fundamental_div_mod(y, 100);
        vstd::arithmetic::div_mod::lemma_fundamental_div_mod_converse(y, 4, 25 * (y / 100), 0);
    }
    if y % 400 == 0 {
        vstd::arithmetic::div_mod::lemma_fundamental_div_mod(y, 400);
        vstd::arithmetic::div_mod::lemma_fundamental_div_mod_converse(y, 100, 4 * (y / 400), 0);
    }
}

/// A year has 365 days, 366 in a leap year.
pub proof fn lemma_year_len(y: int)
    ensures
        days_before_year(y + 1) - days_before_year(y) == (if is_leap(y) {
            366int
        } else {
            365int
        }),
{
    lemma_leaps_step(y);
}

/// The months of a year, from March on, start at fixed offsets from the
/// first of March.
proof fn lemma_days_before_month(y: int, m: int)
    requires
        1 <= m <= 13,
    ensures
        m == 1 ==> days_before_month(y, m) == 0,
        m == 2 ==> days_before_month(y, m) == 31,
        m >= 3 ==> days_before_month(y, m) == 59 + (if is_leap(y) {
            1int
        } else {
            0int
        }) + (153 * (m - 3) + 2) / 5,
    decreases m,
{
    if m > 1 {
        lemma_days_before_month(y, m - 1);
    }
}

/// The first of March of year `k` of a 400-year cycle, counted in days from
/// the cycle's first of March.
pub open spec fn march_first(k: int) -> int {
    365 * k + k / 4 - k / 100
}

/// The year of the cycle that day `doe` of the cycle falls in, where years
/// run from March to February.
pub open spec fn year_of_era(doe: int) -> int {
    (doe - doe / 1460 + doe / 36524 - doe / 146096) / 365
}

/// The month, counted from March = 0, that day `doy` of a March-to-February
/// year falls in.
pub open spec fn month_of_year(doy: int) -> int {
    (5 * doy + 2) / 153
}

/// Days from the first of March to the first of month `mp` (March = 0).
pub open spec fn days_before_march_month(mp: int) -> int {
    (153 * mp + 2) / 5
}

proof fn lemma_div_by(x: int, d: int, q: int)
    requires
        d > 0,
        q * d <= x < q * d + d,
    ensures
        x / d == q,
        x % d == x - q * d,
{
    vstd::arithmetic::div_mod::lemma_fundamental_div_mod_converse(x, d, q, x - q * d);
}

/// Within a March-to-February year, the month and day that the offset
/// `doy` names are a valid month and day.
proof fn lemma_march_year(doy: int, leap_next: bool)
    requires
        0 <= doy < (if leap_next {
            366int
        } else {
            365int
        }),
    ensures
        0 <= month_of_year(doy) <= 11,
        days_before_march_month(month_of_year(doy)) <= doy,
        month_of_year(doy) < 10 ==> doy - days_before_march_month(month_of_year(doy)) < month_len(
            0,
            month_of_year(doy) + 3,
        ),
        month_of_year(doy) == 10 ==> doy - days_before_march_month(month_of_year(doy)) < 31,
        month_of_year(doy) == 11 ==> doy - days_before_march_month(month_of_year(doy)) < (if leap_next {
            29int
        } else {
            28int
        }),
{
    let mp = month_of_year(doy);
    vstd::arithmetic::div_mod::lemma_fundamental_div_mod(5 * doy + 2, 153);
    assert(0 <= mp <= 11);
    if mp == 0 {
        lemma_div_by(153 * mp + 2, 5, 0);
    } else if mp == 1 {
        lemma_div_by(153 * mp + 2, 5, 31);
    } else if mp == 2 {
        lemma_div_by(153 * mp + 2, 5, 61);
    } else if mp == 3 {
        lemma_div_by(153 * mp + 2, 5, 92);
    } else if mp == 4 {
        lemma_div_by(153 * mp + 2, 5, 122);
    } else if mp == 5 {
        lemma_div_by(153 * mp + 2, 5, 153);
    } else if mp == 6 {
        lemma_div_by(153 * mp + 2, 5, 184);
    } else if mp == 7 {
        lemma_div_by(153 * mp + 2, 5, 214);
    } else if mp == 8 {
        lemma_div_by(153 * mp + 2, 5, 245);
    } else if mp == 9 {
        lemma_div_by(153 * mp + 2, 5, 275);
    } else if mp == 10 {
        lemma_div_by(153 * mp + 2, 5, 306);
    } else {
        lemma_div_by(153 * mp + 2, 5, 337);
    }
}

/// Every day of a 400-year cycle falls in one March-to-February year of it,
/// and the year-of-cycle formula finds that year.
proof fn lemma_year_of_era(doe: int)
    requires
        0 <= doe < 146097,
    ensures
        0 <= year_of_era(doe) <= 399,
        march_first(year_of_era(doe)) <= doe,
        doe - march_first(year_of_era(doe)) < (if is_leap(year_of_era(doe) + 1) {
            366int
        } else {
            365int
        }),
{
    // Split the day into centuries, four-year spans, years and days.
    let c0 = doe / 36524;
    vstd::arithmetic::div_mod::lemma_fundamental_div_mod(doe, 36524);
    let c = if c0 < 4 { c0 } else { 3 };
    let r1 = doe - 36524 * c;
    assert(0 <= r1 <= 36524);
    assert(r1 == 36524 ==> doe == 146096);
    let e = r1 / 1461;
    vstd::arithmetic::div_mod::lemma_fundamental_div_mod(r1, 1461);
    let r2 = r1 - 1461 * e;
    assert(0 <= e <= 24 && 0 <= r2 <= 1460);
    let b0 = r2 / 365;
    vstd::arithmetic::div_mod::lemma_fundamental_div_mod(r2, 365);
    let b = if b0 < 4 { b0 } else { 3 };
    let j = r2 - 365 * b;
    assert(0 <= b <= 3 && 0 <= j <= 365);
    assert(j == 365 ==> b == 3 && r2 == 1460);
    let k = 100 * c + 4 * e + b;
    assert(doe == 36524 * c + 1461 * e + 365 * b + j);
    // The year's leap status, when its last day is the 366th.
    if b == 3 {
        lemma_div_by(k + 1, 4, 25 * c + e + 1);
        lemma_div_by(k + 1, 100, c + (if e == 24 { 1int } else { 0int }));
        lemma_div_by(k + 1, 400, (if c == 3 && e == 24 { 1int } else { 0int }));
    }
    assert(j == 365 ==> is_leap(k + 1));
    // The formula's three quotients.
    let s = 24 * c + e + 365 * b + j;
    let t1: int = if s >= 1460 { 1 } else { 0 };
    lemma_div_by(doe, 1460, 25 * c + e + t1);
    if doe == 146096 {
        lemma_div_by(doe, 36524, 4);
        lemma_div_by(doe, 146096, 1);
        lemma_div_by(doe - doe / 1460 + doe / 36524 - doe / 146096, 365, 399);
        assert(k == 399 && j == 365);
    } else {
        lemma_div_by(doe, 36524, c);
        lemma_div_by(doe, 146096, 0);
        assert(doe - doe / 1460 + doe / 36524 - doe / 146096 == 365 * k + j - t1);
        assert(t1 == 1 ==> b == 3 && j >= 1);
        assert(t1 == 0 ==> j <= 364);
        lemma_div_by(doe - doe / 1460 + doe / 36524 - doe / 146096, 365, k);
    }
    assert(year_of_era(doe) == k);
    lemma_div_by(k, 4, 25 * c + e);
    lemma_div_by(k, 100, c);
    assert(march_first(k) == 365 * k + 24 * c + e);
}

/// The date that day `doe` of the 400-year cycle starting on 0000-03-01
/// falls on.
pub open spec fn era_date(doe: int) -> (int, int, int) {
    let k = year_of_era(doe);
    let doy = doe - march_first(k);
    let mp = month_of_year(doy);
    let d = doy - days_before_march_month(mp) + 1;
    let m = if mp < 10 {
        mp + 3
    } else {
        mp - 9
    };
    (k + (if m <= 2 {
        1int
    } else {
        0int
    }), m, d)
}

/// Day `doe` of the cycle starting on 0000-03-01 is a valid date, `doe`
/// days after that first of March.
proof fn lemma_era_date(doe: int)
    requires
        0 <= doe < 146097,
    ensures
        is_date(era_date(doe).0, era_date(doe).1, era_date(doe).2),
        day_number(era_date(doe).0, era_date(doe).1, era_date(doe).2) == doe - 719468,
        0 <= era_date(doe).0 <= 400,
{
    let k = year_of_era(doe);
    let doy = doe - march_first(k);
    let mp = month_of_year(doy);
    let (y, m, d) = era_date(doe);
    lemma_year_of_era(doe);
    lemma_march_year(doy, is_leap(k + 1));
    lemma_days_before_month(y, m);
    lemma_div_by(1969, 4, 492);
    lemma_div_by(1969, 100, 19);
    lemma_div_by(1969, 400, 4);
    assert(leaps_before(1970) == 477);
    lemma_div_by(k, 400, 0);
    lemma_leaps_step(k);
    assert(leaps_before(k + 1) == k / 4 - k / 100);
    if mp == 10 {
        lemma_div_by(153 * mp + 2, 5, 306);
    } else if mp == 11 {
        lemma_div_by(153 * mp + 2, 5, 337);
    }
}

/// The calendar repeats every 400 years, which hold 146097 days.
pub proof fn lemma_four_centuries(y: int, m: int, d: int, e: int)
    ensures
        is_leap(y + 400 * e) == is_leap(y),
        month_len(y + 400 * e, m) == month_len(y, m),
        day_number(y + 400 * e, m, d) == day_number(y, m, d) + 146097 * e,
{
    lemma_shift(y, 100 * e, 4);
    lemma_shift(y, 4 * e, 100);
    lemma_shift(y, e, 400);
    lemma_shift(y - 1, 100 * e, 4);
    lemma_shift(y - 1, 4 * e, 100);
    lemma_shift(y - 1, e, 400);
    assert(4 * (100 * e) == 400 * e && 100 * (4 * e) == 400 * e) by (nonlinear_arith);
    lemma_month_table_shift(y, m, e);
}

proof fn lemma_month_table_shift(y: int, m: int, e: int)
    requires
        is_leap(y + 400 * e) == is_leap(y),
    ensures
        days_before_month(y + 400 * e, m) == days_before_month(y, m),
    decreases m,
{
    if m > 1 {
        lemma_month_table_shift(y, m - 1, e);
    }
}

proof fn lemma_months_grow(y: int, m1: int, m2: int)
    requires
        1 <= m1 <= m2,
    ensures
        days_before_month(y, m1) <= days_before_month(y, m2),
    decreases m2 - m1,
{
    if m1 < m2 {
        lemma_months_grow(y, m1, m2 - 1);
    }
}

proof fn lemma_years_grow(y1: int, y2: int)
    requires
        y1 <= y2,
    ensures
        days_before_year(y1) + 365 * (y2 - y1) <= days_before_year(y2),
    decreases y2 - y1,
{
    if y1 < y2 {
        lemma_years_grow(y1, y2 - 1);
        lemma_year_len(y2 - 1);
    }
}

/// A date's day number lies within its year.
proof fn lemma_within_year(y: int, m: int, d: int)
    requires
        is_date(y, m, d),
    ensures
        days_before_year(y) <= day_number(y, m, d) < days_before_year(y + 1),
{
    lemma_months_grow(y, 1, m);
    lemma_months_grow(y, m + 1, 13);
    lemma_days_before_month(y, 13);
    lemma_div_by(1532, 5, 306);
    assert(days_before_month(y, 13) == 365 + (if is_leap(y) { 1int } else { 0int }));
    assert(days_before_month(y, m + 1) == days_before_month(y, m) + month_len(y, m));
    lemma_year_len(y);
}

/// Distinct dates have distinct day numbers: the date of a day is unique.
pub proof fn lemma_date_unique(y1: int, m1: int, d1: int, y2: int, m2: int, d2: int)
    requires
        is_date(y1, m1, d1),
        is_date(y2, m2, d2),
        day_number(y1, m1, d1) == day_number(y2, m2, d2),
    ensures
        y1 == y2 && m1 == m2 && d1 == d2,
{
    lemma_within_year(y1, m1, d1);
    lemma_within_year(y2, m2, d2);
    if y1 < y2 {
        lemma_years_grow(y1 + 1, y2);
    } else if y2 < y1 {
        lemma_years_grow(y2 + 1, y1);
    }
    assert(y1 == y2);
    if m1 < m2 {
        lemma_months_grow(y1, m1 + 1, m2);
    } else if m2 < m1 {
        lemma_months_grow(y1, m2 + 1, m1);
    }
}

// ----------------------------------------------------------------- dates --

/// The civil date `days` days after 1970-01-01 (before it, when negative).
pub fn civil_from_days(days: i64) -> (r: (i64, i64, i64))
    requires
        i64::MIN / 86_400 <= days <= i64::MAX / 86_400,
    ensures
        is_date(r.0 as int, r.1 as int, r.2 as int),
        day_number(r.0 as int, r.1 as int, r.2 as int) == days,
        -1_000_000_000_000 <= r.0 <= 1_000_000_000_000,
{
    let z = days + 719_468;
    let era = z.checked_div_euclid(146_097).unwrap();
    let doe = z.checked_rem_euclid(146_097).unwrap();
    proof {
        vstd::arithmetic::div_mod::lemma_fundamental_div_mod(z as int, 146_097);
        lemma_year_of_era(doe as int);
    }
    let yoe = (doe - doe / 1460 + doe / 36_524 - doe / 146_096) / 365;
    let y = yoe + era * 400;
    let doy = doe - (365 * yoe + yoe / 4 - yoe / 100);
    proof {
        lemma_march_year(doy as int, is_leap(yoe + 1));
    }
    let mp = (5 * doy + 2) / 153;
    let d = doy - (153 * mp + 2) / 5 + 1;
    let m = if mp < 10 {
        mp + 3
    } else {
        mp - 9
    };
    let y = if m <= 2 {
        y + 1
    } else {
        y
    };
    proof {
        let y0 = y - 400 * era;
        assert(era_date(doe as int) == (y0, m as int, d as int));
        lemma_era_date(doe as int);
        lemma_four_centuries(y0, m as int, d as int, era as int);
    }
    (y, m, d)
}

/// The decimal digit `v` (0..=9).
pub open spec fn digit_char(v: int) -> char {
    if v == 0 {
        '0'
    } else if v == 1 {
        '1'
    } else if v == 2 {
        '2'
    } else if v == 3 {
        '3'
    } else if v == 4 {
        '4'
    } else if v == 5 {
        '5'
    } else if v == 6 {
        '6'
    } else if v == 7 {
        '7'
    } else if v == 8 {
        '8'
    } else {
        '9'
    }
}

/// `n` in decimal, without leading zeros.
pub open spec fn digits_of(n: nat) -> Seq<char>
    decreases n,
{
    if n < 10 {
        seq![digit_char(n as int)]
    } else {
        digits_of(n / 10).push(digit_char((n % 10) as int))
    }
}

/// `n` in decimal, zero-padded on the left to at least `w` characters.
pub open spec fn padded(n: nat, w: nat) -> Seq<char> {
    let t = digits_of(n);
    if t.len() < w {
        Seq::new((w - t.len()) as nat, |i: int| '0') + t
    } else {
        t
    }
}

/// A year as a four-wide field: zero-padded, with the sign inside the width.
pub open spec fn year_text(y: int) -> Seq<char> {
    if y < 0 {
        seq!['-'] + padded((-y) as nat, 3)
    } else {
        padded(y as nat, 4)
    }
}

/// The ISO form YYYY-MM-DD of a date.
pub open spec fn iso_text(y: int, m: int, d: int) -> Seq<char> {
    year_text(y) + seq!['-'] + padded(m as nat, 2) + seq!['-'] + padded(d as nat, 2)
}

fn digit(v: u64) -> (c: char)
    requires
        v < 10,
    ensures
        c == digit_char(v as int),
{
    if v == 0 {
        '0'
    } else if v == 1 {
        '1'
    } else if v == 2 {
        '2'
    } else if v == 3 {
        '3'
    } else if v == 4 {
        '4'
    } else if v == 5 {
        '5'
    } else if v == 6 {
        '6'
    } else if v == 7 {
        '7'
    } else if v == 8 {
        '8'
    } else {
        '9'
    }
}

pub(crate) fn push_decimal(s: &mut String, n: u64)
    ensures
        final(s)@ == old(s)@ + digits_of(n as nat),
    decreases n,
{
    if n >= 10 {
        push_decimal(s, n / 10);
    }
    push_char(s, digit(n % 10));
    assert(final(s)@ =~= old(s)@ + digits_of(n as nat)) by {
        if n >= 10 {
            assert(digits_of(n as nat) == digits_of((n / 10) as nat).push(digit_char((n % 10) as int)));
        }
    }
}

fn decimal_len(n: u64) -> (len: usize)
    ensures
        len == digits_of(n as nat).len(),
    decreases n,
{
    if n >= 10 {
        let l = decimal_len(n / 10);
        proof {
            assert(u64::MAX < pow10(20)) by {
                reveal_with_fuel(pow10, 21);
            }
            lemma_digits_len((n / 10) as nat, 20);
        }
        l + 1
    } else {
        1
    }
}

pub open spec fn pow10(k: nat) -> nat
    decreases k,
{
    if k == 0 {
        1
    } else {
        10 * pow10((k - 1) as nat)
    }
}

/// A number below 10^k has at most k digits.
proof fn lemma_digits_len(n: nat, k: nat)
    requires
        n < pow10(k),
        k >= 1,
    ensures
        1 <= digits_of(n).len() <= k,
    decreases n,
{
    if n >= 10 {
        assert(k >= 2) by {
            if k == 1 {
                reveal_with_fuel(pow10, 2);
            }
        }
        assert(n / 10 < pow10((k - 1) as nat)) by {
            assert(pow10(k) == 10 * pow10((k - 1) as nat));
        }
        lemma_digits_len(n / 10, (k - 1) as nat);
    }
}

fn push_padded(s: &mut String, n: u64, w: usize)
    ensures
        final(s)@ == old(s)@ + padded(n as nat, w as nat),
{
    let len = decimal_len(n);
    let ghost start = s@;
    if len < w {
        let mut i: usize = 0;
        while i < w - len
            invariant
                i <= w - len,
                s@ == start + Seq::new(i as nat, |k: int| '0'),
            decreases w - len - i,
        {
            push_char(s, '0');
            i = i + 1;
            assert(s@ =~= start + Seq::new(i as nat, |k: int| '0'));
        }
    }
    push_decimal(s, n);
    assert(s@ =~= start + padded(n as nat, w as nat));
}

/// The ISO date (YYYY-MM-DD) of a clock reading, in seconds since
/// 1970-01-01T00:00:00 UTC.
pub fn iso_date(secs: i64) -> (s: String)
    ensures
        exists|y: int, m: int, d: int|
            is_date(y, m, d) && day_number(y, m, d) == secs / 86_400 && s@ == iso_text(y, m, d),
{
    let days = secs.checked_div_euclid(86_400).unwrap();
    let (y, m, d) = civil_from_days(days);
    let mut s = String::new();
    if y < 0 {
        push_char(&mut s, '-');
        push_padded(&mut s, (-y) as u64, 3);
    } else {
        push_padded(&mut s, y as u64, 4);
    }
    push_char(&mut s, '-');
    push_padded(&mut s, m as u64, 2);
    push_char(&mut s, '-');
    push_padded(&mut s, d as u64, 2);
    assert(s@ =~= iso_text(y as int, m as int, d as int));
    s
}

} // verus!
