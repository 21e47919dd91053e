//! The calendar: plain year-month-day dates, single-day steps and bounded
//! walks, the day-of-week congruence proved consistent with those steps,
//! and the fixed-width `YYYY-MM-DD` rendering. The one trusted item here
//! reads today's date from the system clock.

use vstd::prelude::*;
use vstd::arithmetic::div_mod::{
    lemma_fundamental_div_mod, lemma_fundamental_div_mod_converse, lemma_mod_bound,
    lemma_mod_multiples_vanish,
};
use vstd::string::StringExecFns;

verus! {

/// A day of the proleptic Gregorian calendar, held as plain year, month and
/// day numbers. Years 1 through 9999 are representable, which keeps every
/// date inside a fixed-width `YYYY-MM-DD` rendering.
#[derive(Clone, Copy, PartialEq, Eq, Structural, Debug)]
pub struct Date {
    pub year: u32,
    pub month: u32,
    pub day: u32,
}

pub open spec fn is_leap_year(y: int) -> bool {
    y % 4 == 0 && (y % 100 != 0 || y % 400 == 0)
}

pub open spec fn days_in_month(y: int, m: int) -> int {
    if m == 2 {
        if is_leap_year(y) {
            29
        } else {
            28
        }
    } else if m == 4 || m == 6 || m == 9 || m == 11 {
        30
    } else {
        31
    }
}

impl Date {
    pub open spec fn valid(self) -> bool {
        &&& 1 <= self.year <= 9999
        &&& 1 <= self.month <= 12
        &&& 1 <= self.day <= days_in_month(self.year as int, self.month as int)
    }
}

/// `a` is on or before `b` in calendar order.
pub open spec fn date_le(a: Date, b: Date) -> bool {
    ||| a.year < b.year
    ||| (a.year == b.year && a.month < b.month)
    ||| (a.year == b.year && a.month == b.month && a.day <= b.day)
}

/// `a` is strictly before `b` in calendar order.
pub open spec fn date_lt(a: Date, b: Date) -> bool {
    date_le(a, b) && a != b
}

/// A measure that grows along the calendar order and sinks by at most four
/// for one step back; it bounds how far a bounded walk can reach.
pub open spec fn date_ord(d: Date) -> int {
    d.year * 372 + d.month * 31 + d.day
}

pub proof fn lemma_date_le_trans(a: Date, b: Date, c: Date)
    requires
        date_le(a, b),
        date_le(b, c),
    ensures
        date_le(a, c),
{
}

pub fn days_in_month_of(y: u32, m: u32) -> (r: u32)
    requires
        1 <= m <= 12,
    ensures
        r == days_in_month(y as int, m as int),
{
    if m == 2 {
        if y % 4 == 0 && (y % 100 != 0 || y % 400 == 0) {
            29
        } else {
            28
        }
    } else if m == 4 || m == 6 || m == 9 || m == 11 {
        30
    } else {
        31
    }
}

pub open spec fn spec_next_day(d: Date) -> Date {
    if d.day < days_in_month(d.year as int, d.month as int) {
        Date { year: d.year, month: d.month, day: (d.day + 1) as u32 }
    } else if d.month < 12 {
        Date { year: d.year, month: (d.month + 1) as u32, day: 1 }
    } else {
        Date { year: (d.year + 1) as u32, month: 1, day: 1 }
    }
}

pub open spec fn spec_prev_day(d: Date) -> Date {
    if d.day > 1 {
        Date { year: d.year, month: d.month, day: (d.day - 1) as u32 }
    } else if d.month > 1 {
        Date {
            year: d.year,
            month: (d.month - 1) as u32,
            day: days_in_month(d.year as int, d.month - 1) as u32,
        }
    } else if d.year > 1 {
        Date { year: (d.year - 1) as u32, month: 12, day: 31 }
    } else {
        d
    }
}

pub fn next_day(d: Date) -> (r: Date)
    requires
        d.valid(),
        !(d.year == 9999 && d.month == 12 && d.day == 31),
    ensures
        r == spec_next_day(d),
        r.valid(),
        date_lt(d, r),
        d.year <= r.year <= d.year + 1,
{
    let dim = days_in_month_of(d.year, d.month);
    if d.day < dim {
        Date { year: d.year, month: d.month, day: d.day + 1 }
    } else if d.month < 12 {
        Date { year: d.year, month: d.month + 1, day: 1 }
    } else {
        Date { year: d.year + 1, month: 1, day: 1 }
    }
}

pub fn prev_day(d: Date) -> (r: Date)
    requires
        d.valid(),
        !(d.year == 1 && d.month == 1 && d.day == 1),
    ensures
        r == spec_prev_day(d),
        r.valid(),
        date_lt(r, d),
        date_ord(d) - 4 <= date_ord(r) < date_ord(d),
{
    if d.day > 1 {
        Date { year: d.year, month: d.month, day: d.day - 1 }
    } else if d.month > 1 {
        Date { year: d.year, month: d.month - 1, day: days_in_month_of(d.year, d.month - 1) }
    } else {
        Date { year: d.year - 1, month: 12, day: 31 }
    }
}

pub open spec fn spec_plus(d: Date, n: nat) -> Date
    decreases n,
{
    if n == 0 {
        d
    } else {
        spec_next_day(spec_plus(d, (n - 1) as nat))
    }
}

pub open spec fn spec_minus(d: Date, n: nat) -> Date
    decreases n,
{
    if n == 0 {
        d
    } else {
        spec_prev_day(spec_minus(d, (n - 1) as nat))
    }
}

/// Walk `n` days back. The bound on `date_ord` keeps the walk well inside
/// the calendar, so no step starts from the first representable day.
pub fn date_minus(d: Date, n: u32) -> (r: Date)
    requires
        d.valid(),
        n <= 90,
        date_ord(d) > 404 + 4 * n,
    ensures
        r == spec_minus(d, n as nat),
        r.valid(),
        date_le(r, d),
{
    let mut cur = d;
    let mut i: u32 = 0;
    while i < n
        invariant
            i <= n,
            n <= 90,
            d.valid(),
            date_ord(d) > 404 + 4 * n,
            cur == spec_minus(d, i as nat),
            cur.valid(),
            date_le(cur, d),
            date_ord(cur) >= date_ord(d) - 4 * i,
        decreases n - i,
    {
        proof {
            if cur.year == 1 && cur.month == 1 && cur.day == 1 {
                assert(date_ord(cur) == 404);
                assert(false);
            }
        }
        let prev = prev_day(cur);
        proof {
            lemma_date_le_trans(prev, cur, d);
        }
        cur = prev;
        i = i + 1;
    }
    cur
}

/// Walk `n` days forward; a short walk from a year below the ceiling cannot
/// leave the representable range.
pub fn date_plus(d: Date, n: u32) -> (r: Date)
    requires
        d.valid(),
        d.year <= 9998,
        n <= 30,
    ensures
        r == spec_plus(d, n as nat),
        r.valid(),
        date_le(d, r),
        r.year <= 9999,
{
    let mut cur = d;
    let mut i: u32 = 0;
    while i < n
        invariant
            i <= n,
            n <= 30,
            d.valid(),
            d.year <= 9998,
            cur == spec_plus(d, i as nat),
            cur.valid(),
            date_le(d, cur),
            cur.year == d.year || (cur.year == d.year + 1 && cur.month == 1 && cur.day <= i),
        decreases n - i,
    {
        let next = next_day(cur);
        proof {
            lemma_date_le_trans(d, cur, next);
        }
        cur = next;
        i = i + 1;
    }
    cur
}

/// One step forward after one step back lands where the walk began.
pub proof fn lemma_next_of_prev(d: Date)
    requires
        d.valid(),
        !(d.year == 1 && d.month == 1 && d.day == 1),
    ensures
        spec_next_day(spec_prev_day(d)) == d,
{
}

/// Extending a forward walk by starting it one day earlier cancels out.
pub proof fn lemma_plus_of_prev(d: Date, n: nat)
    requires
        d.valid(),
        !(d.year == 1 && d.month == 1 && d.day == 1),
    ensures
        spec_plus(spec_prev_day(d), n + 1) == spec_plus(d, n),
    decreases n,
{
    if n == 0 {
        lemma_next_of_prev(d);
        assert(spec_plus(spec_prev_day(d), 1) == spec_next_day(spec_plus(spec_prev_day(d), 0)));
    } else {
        lemma_plus_of_prev(d, (n - 1) as nat);
        assert(spec_plus(spec_prev_day(d), n + 1)
            == spec_next_day(spec_plus(spec_prev_day(d), n)));
        assert(spec_plus(d, n) == spec_next_day(spec_plus(d, (n - 1) as nat)));
    }
}

/// Every stop of a bounded backward walk is a valid date above the floor.
pub proof fn lemma_minus_valid(d: Date, n: nat)
    requires
        d.valid(),
        n <= 90,
        date_ord(d) > 404 + 4 * n,
    ensures
        spec_minus(d, n).valid(),
        date_le(spec_minus(d, n), d),
        date_ord(spec_minus(d, n)) >= date_ord(d) - 4 * n,
        n > 0 ==> date_lt(spec_minus(d, n), d),
    decreases n,
{
    if n > 0 {
        lemma_minus_valid(d, (n - 1) as nat);
        let m = spec_minus(d, (n - 1) as nat);
        assert(!(m.year == 1 && m.month == 1 && m.day == 1)) by {
            if m.year == 1 && m.month == 1 && m.day == 1 {
                assert(date_ord(m) == 404);
            }
        }
        assert(date_lt(spec_prev_day(m), m));
        lemma_date_le_trans(spec_prev_day(m), m, d);
    }
}

/// Walking `m` days back and then `i <= m` days forward is the same as
/// walking `m - i` days back.
pub proof fn lemma_plus_after_minus(d: Date, m: nat, i: nat)
    requires
        d.valid(),
        m <= 90,
        i <= m,
        date_ord(d) > 404 + 4 * m,
    ensures
        spec_plus(spec_minus(d, m), i) == spec_minus(d, (m - i) as nat),
    decreases i,
{
    if i > 0 {
        let base = spec_minus(d, (m - 1) as nat);
        lemma_minus_valid(d, (m - 1) as nat);
        assert(!(base.year == 1 && base.month == 1 && base.day == 1)) by {
            if base.year == 1 && base.month == 1 && base.day == 1 {
                assert(date_ord(base) == 404);
            }
        }
        assert(spec_minus(d, m) == spec_prev_day(base));
        lemma_plus_of_prev(base, (i - 1) as nat);
        lemma_plus_after_minus(d, (m - 1) as nat, (i - 1) as nat);
    }
}

/// A forward walk of at most 30 days from a year below the ceiling stays
/// valid and strictly advances.
pub proof fn lemma_plus_valid(d: Date, n: nat)
    requires
        d.valid(),
        d.year <= 9998,
        n <= 30,
    ensures
        spec_plus(d, n).valid(),
        date_le(d, spec_plus(d, n)),
        spec_plus(d, n).year == d.year || (spec_plus(d, n).year == d.year + 1
            && spec_plus(d, n).month == 1 && spec_plus(d, n).day <= n),
        n > 0 ==> date_lt(d, spec_plus(d, n)),
    decreases n,
{
    if n > 0 {
        lemma_plus_valid(d, (n - 1) as nat);
        let m = spec_plus(d, (n - 1) as nat);
        assert(date_lt(m, spec_next_day(m)));
        lemma_date_le_trans(d, m, spec_next_day(m));
    }
}

/// Forward walks compose: `a + b` days forward is `a` days and then `b`.
pub proof fn lemma_plus_add(d: Date, a: nat, b: nat)
    ensures
        spec_plus(d, a + b) == spec_plus(spec_plus(d, a), b),
    decreases b,
{
    if b > 0 {
        lemma_plus_add(d, a, (b - 1) as nat);
        assert(spec_plus(d, a + b) == spec_next_day(spec_plus(d, (a + b - 1) as nat)));
        assert(spec_plus(spec_plus(d, a), b) == spec_next_day(
            spec_plus(spec_plus(d, a), (b - 1) as nat),
        ));
    }
}

pub open spec fn month_offset(m: int) -> int {
    if m == 1 {
        0
    } else if m == 2 {
        3
    } else if m == 3 {
        2
    } else if m == 4 {
        5
    } else if m == 5 {
        0
    } else if m == 6 {
        3
    } else if m == 7 {
        5
    } else if m == 8 {
        1
    } else if m == 9 {
        4
    } else if m == 10 {
        6
    } else if m == 11 {
        2
    } else {
        4
    }
}

/// Day of the week by Sakamoto's congruence, 0 standing for Sunday.
pub open spec fn spec_weekday_sunday0(d: Date) -> int {
    (sakamoto_sum(d) % 7) as int
}

pub open spec fn sakamoto_sum(d: Date) -> int {
    let y: int = if d.month < 3 {
        d.year - 1
    } else {
        d.year as int
    };
    y + y / 4 - y / 100 + y / 400 + month_offset(d.month as int) + d.day
}

/// How many days `d` lies after the Monday of its week: 0 on a Monday
/// through 6 on a Sunday.
pub open spec fn spec_days_from_monday(d: Date) -> int {
    (spec_weekday_sunday0(d) + 6) % 7
}

pub fn days_from_monday(d: Date) -> (r: u32)
    requires
        d.valid(),
    ensures
        r == spec_days_from_monday(d),
        r <= 6,
{
    let y: u32 = if d.month < 3 {
        d.year - 1
    } else {
        d.year
    };
    let t: u32 = month_offset_of(d.month);
    let w: u32 = (y + y / 4 - y / 100 + y / 400 + t + d.day) % 7;
    (w + 6) % 7
}

fn month_offset_of(m: u32) -> (r: u32)
    requires
        1 <= m <= 12,
    ensures
        r == month_offset(m as int),
{
    if m == 1 {
        0
    } else if m == 2 {
        3
    } else if m == 3 {
        2
    } else if m == 4 {
        5
    } else if m == 5 {
        0
    } else if m == 6 {
        3
    } else if m == 7 {
        5
    } else if m == 8 {
        1
    } else if m == 9 {
        4
    } else if m == 10 {
        6
    } else if m == 11 {
        2
    } else {
        4
    }
}

proof fn lemma_div_step(a: int, k: int)
    requires
        k > 0,
    ensures
        a / k - (a - 1) / k == if a % k == 0 {
            1int
        } else {
            0int
        },
{
    lemma_fundamental_div_mod(a, k);
    lemma_mod_bound(a, k);
    let q = a / k;
    let r = a % k;
    if r == 0 {
        assert((q - 1) * k + (k - 1) == q * k - 1) by (nonlinear_arith);
        assert(a - 1 == (q - 1) * k + (k - 1)) by {
            assert(a == k * q + r);
            assert(k * q == q * k) by (nonlinear_arith);
        }
        lemma_fundamental_div_mod_converse(a - 1, k, q - 1, k - 1);
    } else {
        assert(a - 1 == q * k + (r - 1)) by {
            assert(a == k * q + r);
            assert(k * q == q * k) by (nonlinear_arith);
        }
        lemma_fundamental_div_mod_converse(a - 1, k, q, r - 1);
    }
}

proof fn lemma_century_divisibility(y: int)
    ensures
        y % 400 == 0 ==> y % 100 == 0,
        y % 400 == 0 ==> y % 4 == 0,
        y % 100 == 0 ==> y % 4 == 0,
{
    if y % 400 == 0 {
        lemma_fundamental_div_mod(y, 400);
        assert(y == 100 * (4 * (y / 400)));
        lemma_mod_multiples_vanish(4 * (y / 400), 0, 100);
        assert(y == 4 * (100 * (y / 400)));
        lemma_mod_multiples_vanish(100 * (y / 400), 0, 4);
    }
    if y % 100 == 0 {
        lemma_fundamental_div_mod(y, 100);
        assert(y == 4 * (25 * (y / 100)));
        lemma_mod_multiples_vanish(25 * (y / 100), 0, 4);
    }
}

/// Pulling a remainder before adding does not change a remainder:
/// `(x % 7 + k) % 7 == (x + k) % 7`.
proof fn lemma_mod7_shift(x: int, k: int)
    ensures
        (x % 7 + k) % 7 == (x + k) % 7,
{
    lemma_fundamental_div_mod(x, 7);
    assert(x + k == 7 * (x / 7) + (x % 7 + k));
    lemma_mod_multiples_vanish(x / 7, x % 7 + k, 7);
}

/// One step back keeps a date valid and strictly descends, except from the
/// first representable day.
pub proof fn lemma_prev_valid(d: Date)
    requires
        d.valid(),
        !(d.year == 1 && d.month == 1 && d.day == 1),
    ensures
        spec_prev_day(d).valid(),
        date_lt(spec_prev_day(d), d),
        date_ord(d) - 4 <= date_ord(spec_prev_day(d)) < date_ord(d),
{
}

/// One day forward advances the day of the week by exactly one place,
/// wrapping from Sunday to Monday: the weekday congruence agrees with the
/// calendar's own day steps, leap years included.
pub proof fn lemma_weekday_next(d: Date)
    requires
        d.valid(),
        !(d.year == 9999 && d.month == 12 && d.day == 31),
    ensures
        spec_days_from_monday(spec_next_day(d)) == (spec_days_from_monday(d) + 1) % 7,
{
    let n = spec_next_day(d);
    let s1 = sakamoto_sum(d);
    let s2 = sakamoto_sum(n);
    if d.day < days_in_month(d.year as int, d.month as int) {
        assert(s2 == s1 + 1);
        lemma_mod_multiples_vanish(0, s1 + 1, 7);
    } else if d.month == 2 {
        let y = d.year as int;
        lemma_div_step(y, 4);
        lemma_div_step(y, 100);
        lemma_div_step(y, 400);
        lemma_century_divisibility(y);
        assert(s2 == 7 * (-4) + (s1 + 1));
        lemma_mod_multiples_vanish(-4, s1 + 1, 7);
    } else {
        assert(s2 == s1 + 1 - 28 || s2 == s1 + 1 - 35);
        if s2 == s1 + 1 - 28 {
            assert(s2 == 7 * (-4) + (s1 + 1));
            lemma_mod_multiples_vanish(-4, s1 + 1, 7);
        } else {
            assert(s2 == 7 * (-5) + (s1 + 1));
            lemma_mod_multiples_vanish(-5, s1 + 1, 7);
        }
    }
    assert(s2 % 7 == (s1 + 1) % 7);
    assert(spec_days_from_monday(n) == s1 % 7) by {
        lemma_mod7_shift(s1 + 1, 6);
        assert(spec_days_from_monday(n) == (s1 + 7) % 7);
        lemma_mod_multiples_vanish(1, s1, 7);
        lemma_fundamental_div_mod(s1, 7);
        lemma_mod7_shift(s1, 0);
    }
    assert((spec_days_from_monday(d) + 1) % 7 == s1 % 7) by {
        lemma_mod7_shift(s1, 6);
        lemma_mod7_shift(s1 + 6, 1);
        assert((spec_days_from_monday(d) + 1) % 7 == (s1 + 7) % 7);
        lemma_mod_multiples_vanish(1, s1, 7);
        lemma_mod7_shift(s1, 0);
    }
}

/// One day back moves the day of the week one place the other way.
pub proof fn lemma_weekday_prev(d: Date)
    requires
        d.valid(),
        !(d.year == 1 && d.month == 1 && d.day == 1),
    ensures
        spec_days_from_monday(spec_prev_day(d)) == (spec_days_from_monday(d) + 6) % 7,
{
    let p = spec_prev_day(d);
    lemma_prev_valid(d);
    assert(!(p.year == 9999 && p.month == 12 && p.day == 31));
    lemma_next_of_prev(d);
    lemma_weekday_next(p);
    let x = spec_days_from_monday(p);
    assert(spec_days_from_monday(d) == (x + 1) % 7);
    assert(0 <= x < 7);
    assert(((x + 1) % 7 + 6) % 7 == x) by {
        lemma_mod7_shift(x + 1, 6);
        lemma_mod_multiples_vanish(1, x, 7);
        lemma_fundamental_div_mod(x, 7);
        lemma_mod7_shift(x, 0);
    }
}

/// A backward walk of `n` days moves the day of the week back by `n`
/// places modulo seven.
pub proof fn lemma_weekday_minus(d: Date, n: nat)
    requires
        d.valid(),
        n <= 90,
        date_ord(d) > 404 + 4 * n,
    ensures
        spec_days_from_monday(spec_minus(d, n)) == (spec_days_from_monday(d) - n) % 7,
    decreases n,
{
    if n == 0 {
        let x = spec_days_from_monday(d);
        assert(0 <= x < 7);
        lemma_fundamental_div_mod(x, 7);
        lemma_mod7_shift(x, 0);
    } else {
        lemma_weekday_minus(d, (n - 1) as nat);
        let m = spec_minus(d, (n - 1) as nat);
        lemma_minus_valid(d, (n - 1) as nat);
        assert(!(m.year == 1 && m.month == 1 && m.day == 1)) by {
            if m.year == 1 && m.month == 1 && m.day == 1 {
                assert(date_ord(m) == 404);
            }
        }
        lemma_weekday_prev(m);
        let base = spec_days_from_monday(d);
        assert(spec_days_from_monday(spec_minus(d, n)) == ((base - (n - 1)) % 7 + 6) % 7);
        lemma_mod7_shift(base - (n - 1), 6);
        assert(spec_days_from_monday(spec_minus(d, n)) == (base - n + 7) % 7);
        lemma_mod_multiples_vanish(1, base - n, 7);
    }
}

/// A forward walk of `n` days moves the day of the week forward by `n`
/// places modulo seven.
pub proof fn lemma_weekday_plus(d: Date, n: nat)
    requires
        d.valid(),
        d.year <= 9998,
        n <= 30,
    ensures
        spec_days_from_monday(spec_plus(d, n)) == (spec_days_from_monday(d) + n) % 7,
    decreases n,
{
    if n == 0 {
        let x = spec_days_from_monday(d);
        assert(0 <= x < 7);
        lemma_fundamental_div_mod(x, 7);
        lemma_mod7_shift(x, 0);
    } else {
        lemma_weekday_plus(d, (n - 1) as nat);
        let m = spec_plus(d, (n - 1) as nat);
        lemma_plus_valid(d, (n - 1) as nat);
        assert(!(m.year == 9999 && m.month == 12 && m.day == 31));
        lemma_weekday_next(m);
        let base = spec_days_from_monday(d);
        assert(spec_days_from_monday(spec_plus(d, n)) == ((base + (n - 1)) % 7 + 1) % 7);
        lemma_mod7_shift(base + (n - 1), 1);
    }
}

pub open spec fn digit_char(k: int) -> char {
    if k == 0 {
        '0'
    } else if k == 1 {
        '1'
    } else if k == 2 {
        '2'
    } else if k == 3 {
        '3'
    } else if k == 4 {
        '4'
    } else if k == 5 {
        '5'
    } else if k == 6 {
        '6'
    } else if k == 7 {
        '7'
    } else if k == 8 {
        '8'
    } else {
        '9'
    }
}

/// The ten characters of the fixed-width `YYYY-MM-DD` rendering of a date.
pub open spec fn date_chars(d: Date) -> Seq<char> {
    seq![
        digit_char(d.year as int / 1000 % 10),
        digit_char(d.year as int / 100 % 10),
        digit_char(d.year as int / 10 % 10),
        digit_char(d.year as int % 10),
        '-',
        digit_char(d.month as int / 10),
        digit_char(d.month as int % 10),
        '-',
        digit_char(d.day as int / 10),
        digit_char(d.day as int % 10),
    ]
}

fn digit_str(k: u32) -> (r: &'static str)
    requires
        k < 10,
    ensures
        r@ == seq![digit_char(k as int)],
{
    proof {
        reveal_strlit("0");
        reveal_strlit("1");
        reveal_strlit("2");
        reveal_strlit("3");
        reveal_strlit("4");
        reveal_strlit("5");
        reveal_strlit("6");
        reveal_strlit("7");
        reveal_strlit("8");
        reveal_strlit("9");
    }
    let r: &'static str = if k == 0 {
        "0"
    } else if k == 1 {
        "1"
    } else if k == 2 {
        "2"
    } else if k == 3 {
        "3"
    } else if k == 4 {
        "4"
    } else if k == 5 {
        "5"
    } else if k == 6 {
        "6"
    } else if k == 7 {
        "7"
    } else if k == 8 {
        "8"
    } else {
        "9"
    };
    proof {
        assert(r@ =~= seq![digit_char(k as int)]);
    }
    r
}

/// Render a date as its `YYYY-MM-DD` string.
pub fn date_string(d: Date) -> (r: String)
    requires
        d.valid(),
    ensures
        r@ == date_chars(d),
{
    proof {
        reveal_strlit("-");
    }
    let mut s = String::new();
    s.append(digit_str(d.year / 1000 % 10));
    s.append(digit_str(d.year / 100 % 10));
    s.append(digit_str(d.year / 10 % 10));
    s.append(digit_str(d.year % 10));
    s.append("-");
    s.append(digit_str(d.month / 10));
    s.append(digit_str(d.month % 10));
    s.append("-");
    s.append(digit_str(d.day / 10));
    s.append(digit_str(d.day % 10));
    proof {
        assert(s@ =~= date_chars(d));
    }
    s
}

/// Relies on `chrono::Local::now` and chrono's `Datelike` accessors `year`,
/// `month` and `day`: the local calendar date at the moment of the call, as
/// plain numbers. chrono documents `month` as ranging over 1..=12 and `day`
/// over 1..=31; nothing more can be promised of a clock reading. In
/// pathological environments — a system clock before the Unix epoch, or
/// corrupt timezone data — chrono's own code panics; no precondition can
/// exclude such machine states, so that residual risk stays with this one
/// trusted call.
#[verifier::external_body]
fn clock_today_ymd() -> (r: (i32, u32, u32))
    ensures
        1 <= r.1 <= 12,
        1 <= r.2 <= 31,
{
    let now = chrono::Local::now().date_naive();
    (chrono::Datelike::year(&now), chrono::Datelike::month(&now), chrono::Datelike::day(&now))
}

/// Today's local calendar date. The clock reading is checked against the
/// calendar; a reading outside the representable range falls back to the
/// first day of 1970, so the result is always a valid date with room for
/// windowed queries in both directions.
pub fn current_date() -> (r: Date)
    ensures
        r.valid(),
        2 <= r.year <= 9998,
{
    let (y, m, d) = clock_today_ymd();
    if 2 <= y && y <= 9998 {
        let yy = y as u32;
        if d <= days_in_month_of(yy, m) {
            return Date { year: yy, month: m, day: d };
        }
    }
    Date { year: 1970, month: 1, day: 1 }
}

} // verus!
