//! Dates of the Gregorian calendar, counted in days from 1970-01-01.
use vstd::prelude::*;
use vstd::string::*;

use crate::number::{digits_value, law_decimal_reads_back, law_leading_zeros};
use crate::text::{dec, dec_text, digit_char};

verus! {

/// Seconds in a day.
pub const DAY_SECS: u64 = 86400;

/// A year, a month from 1 to 12, and a day of the month from 1 on.
#[derive(Debug, Clone, Copy, PartialEq, Eq, Structural)]
pub struct Date {
    pub year: u64,
    pub month: u64,
    pub day: u64,
}

/// Years with a 29th of February.
pub open spec fn leap(year: int) -> bool {
    (year % 4 == 0 && year % 100 != 0) || year % 400 == 0
}

pub open spec fn year_days(year: int) -> int {
    if leap(year) {
        366
    } else {
        365
    }
}

pub open spec fn month_days(year: int, month: int) -> int {
    if month == 2 {
        if leap(year) {
            29
        } else {
            28
        }
    } else if month == 4 || month == 6 || month == 9 || month == 11 {
        30
    } else {
        31
    }
}

/// The days from the start of 1970 to the start of a year.
pub open spec fn days_before_year(year: int) -> int
    decreases year,
{
    if year <= 1970 {
        0
    } else {
        days_before_year(year - 1) + year_days(year - 1)
    }
}

/// The days from the start of a year to the start of a month.
pub open spec fn days_before_month(year: int, month: int) -> int
    decreases month,
{
    if month <= 1 {
        0
    } else {
        days_before_month(year, month - 1) + month_days(year, month - 1)
    }
}

impl Date {
    /// A day that the calendar has, from 1970 on.
    pub open spec fn valid(self) -> bool {
        &&& self.year >= 1970
        &&& 1 <= self.month <= 12
        &&& 1 <= self.day <= month_days(self.year as int, self.month as int)
    }

    /// The days from 1970-01-01 to this one.
    pub open spec fn day_number(self) -> int {
        days_before_year(self.year as int) + days_before_month(
            self.year as int,
            self.month as int,
        ) + self.day - 1
    }
}

/// `n` in decimal, with zeros in front up to `width` digits.
pub open spec fn padded(n: nat, width: nat) -> Seq<char> {
    let d = dec(n);
    if d.len() < width {
        Seq::new((width - d.len()) as nat, |i: int| '0') + d
    } else {
        d
    }
}

/// A date as `YYYY-MM-DD`.
pub open spec fn date_form(d: Date) -> Seq<char> {
    padded(d.year as nat, 4) + "-"@ + padded(d.month as nat, 2) + "-"@ + padded(d.day as nat, 2)
}

proof fn lemma_months_fill_year(year: int)
    ensures
        days_before_month(year, 13) == year_days(year),
        forall|m: int| 1 <= m <= 12 ==> 28 <= #[trigger] month_days(year, m) <= 31,
{
    reveal_with_fuel(days_before_month, 14);
}

fn is_leap(year: u64) -> (r: bool)
    ensures
        r == leap(year as int),
{
    (year % 4 == 0 && year % 100 != 0) || year % 400 == 0
}

fn days_in_year(year: u64) -> (r: u64)
    ensures
        r == year_days(year as int),
{
    if is_leap(year) {
        366
    } else {
        365
    }
}

fn days_in_month(year: u64, month: u64) -> (r: u64)
    ensures
        r == month_days(year as int, month as int),
{
    if month == 2 {
        if is_leap(year) {
            29
        } else {
            28
        }
    } else if month == 4 || month == 6 || month == 9 || month == 11 {
        30
    } else {
        31
    }
}

/// The date that lies `days` days after 1970-01-01.
pub fn date_of_day(days: u64) -> (r: Date)
    requires
        days <= u64::MAX - 2000,
    ensures
        r.valid(),
        r.day_number() == days,
{
    let mut year: u64 = 1970;
    let mut remaining: u64 = days;
    while remaining >= days_in_year(year)
        invariant
            year >= 1970,
            days <= u64::MAX - 2000,
            year - 1970 <= days - remaining,
            remaining <= days,
            days_before_year(year as int) + remaining == days,
        decreases remaining,
    {
        remaining = remaining - days_in_year(year);
        year = year + 1;
    }
    proof {
        lemma_months_fill_year(year as int);
    }
    let mut month: u64 = 1;
    while month < 12 && remaining >= days_in_month(year, month)
        invariant
            1 <= month <= 12,
            year >= 1970,
            forall|m: int|
                1 <= m <= 12 ==> 28 <= #[trigger] month_days(year as int, m) <= 31,
            days_before_year(year as int) + days_before_month(year as int, month as int) + remaining
                == days,
            days_before_month(year as int, month as int) + remaining < days_before_month(
                year as int,
                13,
            ),
        decreases 12 - month,
    {
        remaining = remaining - days_in_month(year, month);
        month = month + 1;
    }
    proof {
        if month == 12 {
            assert(days_before_month(year as int, 13) == days_before_month(year as int, 12)
                + month_days(year as int, 12));
        }
    }
    Date { year, month, day: remaining + 1 }
}

/// `n` in decimal, with zeros in front up to `width` digits.
fn padded_text(n: u64, width: usize) -> (r: String)
    ensures
        r@ == padded(n as nat, width as nat),
{
    let digits: String = dec_text(n as u128);
    let len: usize = digits.as_str().unicode_len();
    let mut s: String = String::new();
    let ghost zeros = Seq::new(
        if len < width {
            (width - len) as nat
        } else {
            0
        },
        |i: int| '0',
    );
    let mut i: usize = len;
    while i < width
        invariant
            len <= i,
            i <= width || i == len,
            s@ == Seq::new((i - len) as nat, |j: int| '0'),
        decreases width - i,
    {
        s.push('0');
        assert(s@ =~= Seq::new((i + 1 - len) as nat, |j: int| '0'));
        i = i + 1;
    }
    s.append(digits.as_str());
    assert(s@ =~= padded(n as nat, width as nat));
    s
}

/// A date as `YYYY-MM-DD`.
pub fn date_text(d: &Date) -> (r: String)
    ensures
        r@ == date_form(*d),
{
    let mut s: String = padded_text(d.year, 4);
    s.append("-");
    s.append(padded_text(d.month, 2).as_str());
    s.append("-");
    s.append(padded_text(d.day, 2).as_str());
    s
}

/// The date, as `YYYY-MM-DD`, of a point in time given in seconds since the
/// start of 1970.
pub fn date_of_secs(secs: u64) -> (r: String)
    ensures
        exists|d: Date| #[trigger]
            d.valid() && d.day_number() == secs as int / 86400 && r@ == date_form(d),
{
    let d = date_of_day(secs / DAY_SECS);
    date_text(&d)
}

// ---------------------------------------------------------------------------
// Laws
// ---------------------------------------------------------------------------
proof fn lemma_years_grow(a: int, b: int)
    requires
        1970 <= a < b,
    ensures
        days_before_year(a) + year_days(a) <= days_before_year(b),
    decreases b - a,
{
    if a < b - 1 {
        lemma_years_grow(a, b - 1);
    }
}

proof fn lemma_months_grow(year: int, a: int, b: int)
    requires
        1 <= a < b <= 13,
    ensures
        days_before_month(year, a) + month_days(year, a) <= days_before_month(year, b),
    decreases b - a,
{
    lemma_months_fill_year(year);
    if a < b - 1 {
        lemma_months_grow(year, a, b - 1);
        assert(month_days(year, b - 1) >= 28);
    }
}

/// A later date has a greater day number, so a day number has one date only.
pub proof fn law_one_date_per_day(a: Date, b: Date)
    requires
        a.valid(),
        b.valid(),
    ensures
        a.day_number() == b.day_number() ==> a == b,
        a.day_number() < b.day_number() <==> (a.year < b.year || (a.year == b.year && (a.month
            < b.month || (a.month == b.month && a.day < b.day)))),
{
    let before = |x: Date, y: Date|
        x.year < y.year || (x.year == y.year && (x.month < y.month || (x.month == y.month && x.day
            < y.day)));
    if before(a, b) {
        lemma_later(a, b);
    } else if before(b, a) {
        lemma_later(b, a);
    }
}

proof fn lemma_later(a: Date, b: Date)
    requires
        a.valid(),
        b.valid(),
        a.year < b.year || (a.year == b.year && (a.month < b.month || (a.month == b.month && a.day
            < b.day))),
    ensures
        a.day_number() < b.day_number(),
{
    let (ya, yb) = (a.year as int, b.year as int);
    lemma_months_grow(ya, a.month as int, 13);
    lemma_months_fill_year(ya);
    if ya < yb {
        lemma_years_grow(ya, yb);
        if b.month > 1 {
            lemma_months_grow(yb, 1, b.month as int);
            lemma_months_fill_year(yb);
        }
    } else if a.month < b.month {
        lemma_months_grow(ya, a.month as int, b.month as int);
    }
}

proof fn lemma_dec_digits(n: nat)
    ensures
        forall|i: int| 0 <= i < dec(n).len() ==> '0' <= #[trigger] dec(n)[i] <= '9',
    decreases n,
{
    assert forall|d: int| 0 <= d < 10 implies '0' <= #[trigger] digit_char(d) <= '9' by {
        let u = (48 + d) as u32;
        assert(u as char as u32 == u);
    }
    if n >= 10 {
        lemma_dec_digits(n / 10);
        assert forall|i: int| 0 <= i < dec(n).len() implies '0' <= #[trigger] dec(n)[i] <= '9' by {
            if i < dec(n / 10).len() {
                assert(dec(n)[i] == dec(n / 10)[i]);
            } else {
                assert(dec(n)[i] == digit_char((n % 10) as int));
            }
        }
    } else {
        assert(dec(n)[0] == digit_char(n as int));
    }
}

/// A date is written with digits and hyphens alone.
pub proof fn law_dates_are_plain(d: Date)
    ensures
        forall|i: int|
            0 <= i < date_form(d).len() ==> '0' <= #[trigger] date_form(d)[i] <= '9' || date_form(
                d,
            )[i] == '-',
{
    lemma_dec_digits(d.year as nat);
    lemma_dec_digits(d.month as nat);
    lemma_dec_digits(d.day as nat);
    reveal_strlit("-");
    let y = padded(d.year as nat, 4);
    let m = padded(d.month as nat, 2);
    let t = padded(d.day as nat, 2);
    assert(forall|i: int| 0 <= i < y.len() ==> '0' <= #[trigger] y[i] <= '9');
    assert(forall|i: int| 0 <= i < m.len() ==> '0' <= #[trigger] m[i] <= '9');
    assert(forall|i: int| 0 <= i < t.len() ==> '0' <= #[trigger] t[i] <= '9');
}

/// Every fourth year is a leap year, but for those that end a century that four
/// does not divide; it has a day more, in February.
pub proof fn law_years_and_months(year: int)
    ensures
        year % 4 != 0 ==> year_days(year) == 365 && month_days(year, 2) == 28,
        year % 4 == 0 && year % 100 != 0 ==> year_days(year) == 366 && month_days(year, 2) == 29,
        year % 100 == 0 && year % 400 != 0 ==> year_days(year) == 365 && month_days(year, 2) == 28,
        year % 400 == 0 ==> year_days(year) == 366 && month_days(year, 2) == 29,
        month_days(year, 1) == 31 && month_days(year, 3) == 31 && month_days(year, 4) == 30,
        month_days(year, 5) == 31 && month_days(year, 6) == 30 && month_days(year, 7) == 31,
        month_days(year, 8) == 31 && month_days(year, 9) == 30 && month_days(year, 10) == 31,
        month_days(year, 11) == 30 && month_days(year, 12) == 31,
{
}

/// Days are counted from the first of 1970, and each next day is one more: within
/// a month, over to the next month, and over to the next year.
pub proof fn law_days_are_counted(d: Date)
    requires
        d.valid(),
        d.year < u64::MAX,
    ensures
        (Date { year: 1970, month: 1, day: 1 }).day_number() == 0,
        ({
            let y = d.year as int;
            let m = d.month as int;
            let next = if d.day < month_days(y, m) {
                Date { year: d.year, month: d.month, day: (d.day + 1) as u64 }
            } else if d.month < 12 {
                Date { year: d.year, month: (d.month + 1) as u64, day: 1 }
            } else {
                Date { year: (d.year + 1) as u64, month: 1, day: 1 }
            };
            next.valid() && next.day_number() == d.day_number() + 1
        }),
{
    lemma_months_fill_year(d.year as int);
    lemma_months_fill_year(d.year as int + 1);
    assert(days_before_month(d.year as int, 13) == days_before_month(d.year as int, 12)
        + month_days(d.year as int, 12));
    assert(days_before_month(d.year as int + 1, 1) == 0);
    assert(days_before_month(1970, 1) == 0);
    if d.month < 12 {
        assert(28 <= month_days(d.year as int, d.month as int + 1));
    }
}

/// A number with zeros in front reads as the number, and has at least as many
/// digits as asked for: no more, where the number has not.
pub proof fn law_padded(n: nat, width: nat)
    ensures
        digits_value(padded(n, width)) == Some(n as int),
        padded(n, width).len() >= width,
        dec(n).len() >= width ==> padded(n, width) == dec(n),
        dec(n).len() <= width ==> padded(n, width).len() == width,
    decreases width,
{
    law_decimal_reads_back(n);
    let d = dec(n);
    if d.len() < width {
        law_padded(n, (width - 1) as nat);
        let shorter = padded(n, (width - 1) as nat);
        assert(padded(n, width) =~= seq!['0'] + shorter);
        law_leading_zeros(shorter);
    }
}

/// A date is written as its year, month and day, with hyphens between them.
pub proof fn law_date_form(d: Date)
    ensures
        date_form(d) == padded(d.year as nat, 4) + seq!['-'] + padded(d.month as nat, 2) + seq!['-']
            + padded(d.day as nat, 2),
{
    reveal_strlit("-");
    assert("-"@ =~= seq!['-']);
}

} // verus!
