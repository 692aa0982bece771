//! Dates of the civil calendar.

use crate::text::{
    all_digits, decimal, decimal_string, fits_width, is_digit, law_split, lemma_decimal, lemma_padded_order,
    lemma_text_le_fronts, padded, split, text_le,
};
use vstd::prelude::*;
use vstd::string::*;

verus! {

/// The seconds in a day.
pub const SECS_PER_DAY: u64 = 86400;

/// A date.
pub struct Date {
    pub year: int,
    pub month: int,
    pub day: int,
}

/// A leap year has a day more in February.
pub open spec fn is_leap(year: int) -> bool {
    year % 4 == 0 && (year % 100 != 0 || year % 400 == 0)
}

/// The days of a year.
pub open spec fn year_len(year: int) -> int {
    if is_leap(year) {
        366
    } else {
        365
    }
}

/// The days of a month.
pub open spec fn month_len(year: int, month: int) -> int {
    if month == 2 {
        if is_leap(year) {
            29
        } else {
            28
        }
    } else if month == 4 || month == 6 || month == 9 || month == 11 {
        30
    } else {
        31
    }
}

/// The days from the start of 1970 to the start of a year.
pub open spec fn days_to_year(year: int) -> int
    decreases year - 1970,
{
    if year <= 1970 {
        0
    } else {
        days_to_year(year - 1) + year_len(year - 1)
    }
}

/// The days from the start of a year to the start of a month.
pub open spec fn days_to_month(year: int, month: int) -> int
    decreases month,
{
    if month <= 1 {
        0
    } else {
        days_to_month(year, month - 1) + month_len(year, month - 1)
    }
}

impl Date {
    /// The date is in the calendar, not before 1970.
    pub open spec fn valid(self) -> bool {
        &&& self.year >= 1970
        &&& 1 <= self.month <= 12
        &&& 1 <= self.day <= month_len(self.year, self.month)
    }

    /// The days from the first of January 1970 to the date.
    pub open spec fn day_number(self) -> int {
        days_to_year(self.year) + days_to_month(self.year, self.month) + self.day - 1
    }

    /// The date as text: the year, the month and the day with hyphens between them.
    pub open spec fn text(self) -> Seq<char> {
        padded(self.year as nat, 4) + "-"@ + padded(self.month as nat, 2) + "-"@ + padded(
            self.day as nat,
            2,
        )
    }
}

/// `text` is the date of the day that lies `days` after the first of January 1970.
pub open spec fn is_date_text(text: Seq<char>, days: int) -> bool {
    exists|date: Date| date.valid() && #[trigger] date.day_number() == days && text == date.text()
}

/// A text of digits and hyphens that starts with a digit.
pub open spec fn is_plain_date(s: Seq<char>) -> bool {
    &&& s.len() > 0
    &&& is_digit(s[0])
    &&& is_digit(s.last())
    &&& forall|i: int| 0 <= i < s.len() ==> is_digit(#[trigger] s[i]) || s[i] == '-'
}

proof fn lemma_padded(n: nat, width: nat)
    ensures
        padded(n, width).len() > 0,
        all_digits(padded(n, width)),
{
    lemma_decimal(n);
    let d = decimal(n);
    let s = padded(n, width);
    if d.len() < width {
        let zeros = (width - d.len()) as int;
        assert forall|i: int| 0 <= i < s.len() implies is_digit(#[trigger] s[i]) by {
            if i >= zeros {
                assert(s[i] == d[i - zeros]);
                assert(is_digit(d[i - zeros]));
            }
        }
    }
}

/// The text of a date has digits and hyphens only.
pub proof fn lemma_date_text(text: Seq<char>, days: int)
    requires
        is_date_text(text, days),
    ensures
        is_plain_date(text),
{
    reveal_strlit("-");
    let date = choose|date: Date|
        date.valid() && #[trigger] date.day_number() == days && text == date.text();
    let y = padded(date.year as nat, 4);
    let m = padded(date.month as nat, 2);
    let d = padded(date.day as nat, 2);
    lemma_padded(date.year as nat, 4);
    lemma_padded(date.month as nat, 2);
    lemma_padded(date.day as nat, 2);
    assert(text =~= y + seq!['-'] + m + seq!['-'] + d);
    let a = y.len() as int;
    let b = a + 1 + m.len();
    assert(text[0] == y[0]);
    assert(text.last() == d.last());
    assert(is_digit(y[0]));
    assert(is_digit(d[d.len() - 1]));
    assert forall|i: int| 0 <= i < text.len() implies is_digit(#[trigger] text[i]) || text[i]
        == '-' by {
        if i < a {
            assert(text[i] == y[i]);
            assert(is_digit(y[i]));
        } else if a < i < b {
            assert(text[i] == m[i - a - 1]);
            assert(is_digit(m[i - a - 1]));
        } else if b < i {
            assert(text[i] == d[i - b - 1]);
            assert(is_digit(d[i - b - 1]));
        }
    }
}

/// A day has one text only.
pub proof fn lemma_one_date_text(a: Seq<char>, b: Seq<char>, days: int)
    requires
        is_date_text(a, days),
        is_date_text(b, days),
    ensures
        a == b,
{
    let x = choose|date: Date|
        date.valid() && #[trigger] date.day_number() == days && a == date.text();
    let y = choose|date: Date|
        date.valid() && #[trigger] date.day_number() == days && b == date.text();
    law_one_date_per_day(x, y);
}

/// The days from the start of the year 0 to the start of a year, counted by leap rules.
spec fn day_count(year: int) -> int {
    365 * year + (year - 1) / 4 - (year - 1) / 100 + (year - 1) / 400
}

proof fn lemma_days_to_year(year: int)
    requires
        year >= 1970,
    ensures
        days_to_year(year) == day_count(year) - day_count(1970),
    decreases year,
{
    if year > 1970 {
        lemma_days_to_year(year - 1);
    }
}

proof fn lemma_cycle(year: int, cycles: int)
    requires
        year >= 1970,
        cycles >= 0,
    ensures
        days_to_year(year + 400 * cycles) == days_to_year(year) + 146097 * cycles,
{
    lemma_days_to_year(year);
    lemma_days_to_year(year + 400 * cycles);
}

proof fn lemma_days_to_month_len(year: int)
    ensures
        days_to_month(year, 13) == year_len(year),
{
    reveal_with_fuel(days_to_month, 14);
}

proof fn lemma_year_order(a: int, b: int)
    requires
        1970 <= a < b,
    ensures
        days_to_year(a) + year_len(a) <= days_to_year(b),
    decreases b - a,
{
    if a + 1 < b {
        lemma_year_order(a, b - 1);
    }
}

proof fn lemma_month_order(year: int, a: int, b: int)
    requires
        1 <= a < b,
    ensures
        days_to_month(year, a) + month_len(year, a) <= days_to_month(year, b),
    decreases b - a,
{
    if a + 1 < b {
        lemma_month_order(year, a, b - 1);
    }
}

/// Different dates have different numbers: a day has one date only.
pub proof fn law_one_date_per_day(a: Date, b: Date)
    requires
        a.valid(),
        b.valid(),
        a.day_number() == b.day_number(),
    ensures
        a == b,
{
    lemma_days_to_month_len(a.year);
    lemma_days_to_month_len(b.year);
    if a.month < 13 {
        lemma_month_order(a.year, a.month, 13);
    }
    if b.month < 13 {
        lemma_month_order(b.year, b.month, 13);
    }
    lemma_month_nonneg(a.year, a.month);
    lemma_month_nonneg(b.year, b.month);
    if a.year < b.year {
        lemma_year_order(a.year, b.year);
    } else if b.year < a.year {
        lemma_year_order(b.year, a.year);
    } else {
        if a.month < b.month {
            lemma_month_order(a.year, a.month, b.month);
        } else if b.month < a.month {
            lemma_month_order(a.year, b.month, a.month);
        }
    }
}

/// The day of a later date is later, by the year, then the month, then the day.
proof fn lemma_day_order(a: Date, b: Date)
    requires
        a.valid(),
        b.valid(),
        a.day_number() < b.day_number(),
    ensures
        a.year < b.year || (a.year == b.year && (a.month < b.month || (a.month == b.month && a.day
            < b.day))),
{
    lemma_days_to_month_len(b.year);
    lemma_month_order(b.year, b.month, 13);
    lemma_month_nonneg(a.year, a.month);
    if b.year < a.year {
        lemma_year_order(b.year, a.year);
    } else if a.year == b.year && b.month < a.month {
        lemma_month_order(a.year, b.month, a.month);
    }
}

proof fn lemma_day_in_year(date: Date)
    requires
        date.valid(),
        date.day_number() < days_to_year(10000),
    ensures
        date.year <= 9999,
{
    lemma_month_nonneg(date.year, date.month);
    if date.year > 10000 {
        lemma_year_order(10000, date.year);
    }
}

proof fn lemma_date_widths(date: Date)
    requires
        date.valid(),
        date.year <= 9999,
    ensures
        fits_width(date.year as nat, 4),
        fits_width(date.month as nat, 2),
        fits_width(date.day as nat, 2),
{
    reveal_with_fuel(fits_width, 5);
}

/// The parts of a date decide the order of its text, the year first.
proof fn lemma_date_text_order(x: Date, y: Date)
    requires
        x.valid(),
        y.valid(),
        y.year <= 9999,
        x.year < y.year || (x.year == y.year && (x.month < y.month || (x.month == y.month && x.day
            < y.day))),
    ensures
        text_le(x.text(), y.text()),
        x.text() != y.text(),
{
    reveal_strlit("-");
    lemma_date_widths(x);
    lemma_date_widths(y);
    let h = seq!['-'];
    let (xy, yy) = (padded(x.year as nat, 4), padded(y.year as nat, 4));
    let (xm, ym) = (padded(x.month as nat, 2), padded(y.month as nat, 2));
    let (xd, yd) = (padded(x.day as nat, 2), padded(y.day as nat, 2));
    let (x2, y2) = (h + xd, h + yd);
    let (x1, y1) = (h + (xm + x2), h + (ym + y2));
    let a = x.text();
    let b = y.text();
    assert(a =~= xy + x1);
    assert(b =~= yy + y1);
    lemma_padded_order(x.year as nat, y.year as nat, 4);
    assert(a.take(4) =~= xy);
    assert(b.take(4) =~= yy);
    if x.year == y.year {
        lemma_padded_order(x.month as nat, y.month as nat, 2);
        assert(text_le(h, h)) by {
            assert(text_le(h.drop_first(), h.drop_first()));
        }
        assert(a.subrange(5, 7) =~= xm);
        assert(b.subrange(5, 7) =~= ym);
        if x.month == y.month {
            lemma_padded_order(x.day as nat, y.day as nat, 2);
            lemma_text_le_fronts(h, h, xd, yd);
            assert(a.skip(8) =~= xd);
            assert(b.skip(8) =~= yd);
        }
        lemma_text_le_fronts(xm, ym, x2, y2);
        lemma_text_le_fronts(h, h, xm + x2, ym + y2);
    }
    lemma_text_le_fronts(xy, yy, x1, y1);
}

/// The texts of days are ordered as the days, up to the end of the year 9999: a later day comes
/// later in the order of texts.
pub proof fn law_dates_are_in_order(a: Seq<char>, b: Seq<char>, a_days: int, b_days: int)
    requires
        is_date_text(a, a_days),
        is_date_text(b, b_days),
        a_days < b_days < days_to_year(10000),
    ensures
        text_le(a, b),
        a != b,
{
    let x = choose|date: Date|
        date.valid() && #[trigger] date.day_number() == a_days && a == date.text();
    let y = choose|date: Date|
        date.valid() && #[trigger] date.day_number() == b_days && b == date.text();
    lemma_day_order(x, y);
    lemma_day_in_year(y);
    lemma_date_text_order(x, y);
}

proof fn lemma_month_nonneg(year: int, month: int)
    ensures
        days_to_month(year, month) >= 0,
    decreases month,
{
    if month > 1 {
        lemma_month_nonneg(year, month - 1);
    }
}

fn leap(year: u64) -> (r: bool)
    ensures
        r == is_leap(year as int),
{
    year % 4 == 0 && (year % 100 != 0 || year % 400 == 0)
}

fn month_days(year: u64, month: u64) -> (r: u64)
    ensures
        r == month_len(year as int, month as int),
{
    if month == 2 {
        if leap(year) {
            29
        } else {
            28
        }
    } else if month == 4 || month == 6 || month == 9 || month == 11 {
        30
    } else {
        31
    }
}

/// Appends a number with zeros before it up to a width.
fn push_padded(s: &mut String, n: u64, width: usize)
    ensures
        final(s)@ == old(s)@ + padded(n as nat, width as nat),
{
    let d = decimal_string(n);
    let len: usize = d.as_str().unicode_len();
    let mut i: usize = len;
    assert(s@ =~= old(s)@ + Seq::new(0, |k: int| '0'));
    while i < width
        invariant
            len <= i,
            i <= width || i == len,
            s@ == old(s)@ + Seq::new((i - len) as nat, |k: int| '0'),
        decreases width - i,
    {
        s.push('0');
        i += 1;
        assert(s@ =~= old(s)@ + Seq::new((i - len) as nat, |k: int| '0'));
    }
    s.append(d.as_str());
    assert(s@ =~= old(s)@ + padded(n as nat, width as nat));
}

/// The date in coordinated universal time of a moment, in seconds since the start of 1970.
pub fn epoch_to_date(epoch_secs: u64) -> (r: String)
    ensures
        is_date_text(r@, epoch_secs as int / SECS_PER_DAY as int),
{
    let days: u64 = epoch_secs / SECS_PER_DAY;
    let cycles: u64 = days / 146097;
    let rest: u64 = days % 146097;
    let base: u64 = 1970 + 400 * cycles;
    proof {
        lemma_cycle(1970, cycles as int);
    }
    let mut year: u64 = base;
    let mut start: u64 = 0;
    let mut len: u64 = if leap(year) {
        366
    } else {
        365
    };
    while start + len <= rest
        invariant
            base <= year < base + 400,
            base == 1970 + 400 * cycles,
            cycles <= u64::MAX / 86400 / 146097,
            rest < 146097,
            start <= rest,
            len == year_len(year as int),
            start == days_to_year(year as int) - 146097 * cycles,
        decreases base + 400 - year,
    {
        start = start + len;
        year = year + 1;
        proof {
            lemma_cycle(1970, cycles as int + 1);
            if year == base + 400 {
                assert(start == 146097);
            }
        }
        len = if leap(year) {
            366
        } else {
            365
        };
    }
    let day_of_year: u64 = rest - start;
    let mut month: u64 = 1;
    let mut before: u64 = 0;
    let mut days_here: u64 = month_days(year, month);
    while before + days_here <= day_of_year
        invariant
            1 <= month <= 12,
            before == days_to_month(year as int, month as int),
            before <= day_of_year,
            days_here == month_len(year as int, month as int),
            day_of_year < year_len(year as int),
        decreases 13 - month,
    {
        proof {
            lemma_days_to_month_len(year as int);
            if month == 12 {
                assert(days_to_month(year as int, 13) == before + days_here);
            }
        }
        before = before + days_here;
        month = month + 1;
        days_here = month_days(year, month);
    }
    let day: u64 = day_of_year - before + 1;
    let mut s = String::new();
    push_padded(&mut s, year, 4);
    s.append("-");
    push_padded(&mut s, month, 2);
    s.append("-");
    push_padded(&mut s, day, 2);
    proof {
        let date = Date { year: year as int, month: month as int, day: day as int };
        assert(s@ =~= date.text());
        assert(date.valid());
        assert(date.day_number() == days);
    }
    s
}

/// The days before a year are those of its years and a day for each leap year among them: each
/// fourth year, without each hundredth, but with each four hundredth.
pub proof fn law_days_before_a_year(year: int)
    requires
        year >= 1970,
    ensures
        days_to_year(year) == 365 * (year - 1970) + ((year - 1) / 4 - 492) - ((year - 1) / 100 - 19)
            + ((year - 1) / 400 - 4),
{
    lemma_days_to_year(year);
}

/// The months of a year have the lengths of the Gregorian calendar, in which a leap year has a day
/// more in February, and together they are the year.
pub proof fn law_lengths_of_months(year: int, month: int)
    requires
        year >= 1970,
        1 <= month <= 12,
    ensures
        ({
            let february = 28 + (days_to_year(year + 1) - days_to_year(year) - 365);
            let lengths = seq![31int, february, 31, 30, 31, 30, 31, 31, 30, 31, 30, 31];
            month_len(year, month) == lengths[month - 1]
        }),
        days_to_month(year, 1) == 0,
        days_to_month(year, month + 1) == days_to_month(year, month) + month_len(year, month),
        days_to_month(year, 13) == days_to_year(year + 1) - days_to_year(year),
{
    lemma_days_to_month_len(year);
}

/// The first day of 1970 is day zero; the day after the last of a month is the first of the next, and
/// the day after the last of December the first of January.
pub proof fn law_days_follow_one_another(date: Date)
    requires
        date.valid(),
    ensures
        (Date { year: 1970, month: 1, day: 1 }).day_number() == 0,
        date.day < month_len(date.year, date.month) ==> (Date { day: date.day + 1, ..date }).day_number()
            == date.day_number() + 1,
        date.day == month_len(date.year, date.month) && date.month < 12 ==> (Date {
            month: date.month + 1,
            day: 1,
            ..date
        }).day_number() == date.day_number() + 1,
        date.day == 31 && date.month == 12 ==> (Date {
            year: date.year + 1,
            month: 1,
            day: 1,
        }).day_number() == date.day_number() + 1,
{
    lemma_days_to_month_len(date.year);
}

/// The text of a date is the year in four digits, the month in two and the day in two, with hyphens
/// between them.
pub proof fn law_text_of_a_date(date: Date)
    requires
        date.valid(),
    ensures
        split(date.text(), '-') == seq![
            padded(date.year as nat, 4),
            padded(date.month as nat, 2),
            padded(date.day as nat, 2),
        ],
        date.year <= 9999 ==> date.text().len() == 10,
{
    reveal_strlit("-");
    let y = padded(date.year as nat, 4);
    let m = padded(date.month as nat, 2);
    let d = padded(date.day as nat, 2);
    lemma_padded(date.year as nat, 4);
    lemma_padded(date.month as nat, 2);
    lemma_padded(date.day as nat, 2);
    assert forall|n: nat, w: nat| !(#[trigger] padded(n, w)).contains('-') by {
        lemma_padded(n, w);
        let p = padded(n, w);
        if p.contains('-') {
            let k = choose|k: int| 0 <= k < p.len() && p[k] == '-';
            assert(is_digit(p[k]));
        }
    }
    let md = m + seq!['-'] + d;
    assert(date.text() =~= y + seq!['-'] + md);
    law_split(y, '-', md);
    law_split(m, '-', d);
    law_split(d, '-', seq![]);
    assert(split(date.text(), '-') =~= seq![y, m, d]);
    if date.year <= 9999 {
        lemma_date_widths(date);
        lemma_padded_order(date.year as nat, date.year as nat, 4);
        lemma_padded_order(date.month as nat, date.month as nat, 2);
        lemma_padded_order(date.day as nat, date.day as nat, 2);
    }
}

} // verus!
