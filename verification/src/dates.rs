//! Calendar dates for task due dates: a plain year-month-day value, validity
//! in the proleptic Gregorian calendar (decided by the calendar library), the
//! ascending order used to sort the store, and the `YYYY-MM-DD` text form the
//! persisted document carries.

use vstd::prelude::*;

use crate::text::{check_digit, digit_char, digit_to_char, digit_val, digit_value, is_digit,
    push_char};

verus! {

/// A calendar date (year, month, day), no time component. The persisted
/// format carries four-digit years, so valid dates stay below the year 10000.
#[derive(Clone, Copy, PartialEq, Eq, Structural, Debug)]
pub struct Date {
    pub year: u32,
    pub month: u32,
    pub day: u32,
}

pub open spec fn is_leap_year(y: int) -> bool {
    (y % 4 == 0 && y % 100 != 0) || y % 400 == 0
}

pub open spec fn days_in_month(y: int, m: int) -> int {
    if m == 2 {
        if is_leap_year(y) {
            29
        } else {
            28
        }
    } else if m == 4 || m == 6 || m == 9 || m == 11 {
        30
    } else {
        31
    }
}

/// An existing day of the proleptic Gregorian calendar, within the four-digit
/// years the persisted format can represent.
pub open spec fn valid_date(y: int, m: int, d: int) -> bool {
    &&& 0 <= y <= 9999
    &&& 1 <= m <= 12
    &&& 1 <= d <= days_in_month(y, m)
}

/// Relies on `chrono::NaiveDate::from_ymd_opt`: it returns `Some` exactly when
/// (year, month, day) names an existing day of the proleptic Gregorian
/// calendar and the year is within chrono's range, which contains every
/// four-digit year.
#[verifier::external_body]
fn calendar_day_exists(year: u32, month: u32, day: u32) -> (r: bool)
    requires
        year <= 9999,
    ensures
        r == valid_date(year as int, month as int, day as int),
{
    chrono::NaiveDate::from_ymd_opt(year as i32, month, day).is_some()
}

impl Date {
    pub open spec fn wf(self) -> bool {
        valid_date(self.year as int, self.month as int, self.day as int)
    }

    /// Ascending calendar order: by year, then month, then day.
    pub open spec fn spec_le(self, other: Date) -> bool {
        if self.year != other.year {
            self.year < other.year
        } else if self.month != other.month {
            self.month < other.month
        } else {
            self.day <= other.day
        }
    }

    pub fn le(&self, other: &Date) -> (r: bool)
        ensures
            r == self.spec_le(*other),
    {
        if self.year != other.year {
            self.year < other.year
        } else if self.month != other.month {
            self.month < other.month
        } else {
            self.day <= other.day
        }
    }

    /// Builds a date once the calendar library confirms the day exists.
    pub fn new(year: u32, month: u32, day: u32) -> (r: Option<Date>)
        ensures
            r is Some <==> valid_date(year as int, month as int, day as int),
            r is Some ==> r->Some_0 == (Date { year, month, day }),
    {
        if year > 9999 {
            None
        } else if calendar_day_exists(year, month, day) {
            Some(Date { year, month, day })
        } else {
            None
        }
    }
}

/// `spec_le` is a total order; ties in every field mean equality.
pub proof fn lemma_date_order(a: Date, b: Date, c: Date)
    ensures
        a.spec_le(a),
        a.spec_le(b) || b.spec_le(a),
        a.spec_le(b) && b.spec_le(a) ==> a == b,
        a.spec_le(b) && b.spec_le(c) ==> a.spec_le(c),
{
}

/// The `YYYY-MM-DD` form of a date.
pub open spec fn iso_seq(d: Date) -> Seq<char> {
    seq![
        digit_char(d.year as int / 1000),
        digit_char(d.year as int / 100 % 10),
        digit_char(d.year as int / 10 % 10),
        digit_char(d.year as int % 10),
        '-',
        digit_char(d.month as int / 10),
        digit_char(d.month as int % 10),
        '-',
        digit_char(d.day as int / 10),
        digit_char(d.day as int % 10),
    ]
}

/// Ten characters shaped like `YYYY-MM-DD`.
pub open spec fn iso_shape_ok(s: Seq<char>) -> bool {
    &&& s.len() == 10
    &&& is_digit(s[0]) && is_digit(s[1]) && is_digit(s[2]) && is_digit(s[3])
    &&& s[4] == '-'
    &&& is_digit(s[5]) && is_digit(s[6])
    &&& s[7] == '-'
    &&& is_digit(s[8]) && is_digit(s[9])
}

/// The date whose text form a well-shaped `YYYY-MM-DD` sequence is.
pub open spec fn iso_date_of(s: Seq<char>) -> Date {
    Date {
        year: (digit_val(s[0]) * 1000 + digit_val(s[1]) * 100 + digit_val(s[2]) * 10 + digit_val(
            s[3],
        )) as u32,
        month: (digit_val(s[5]) * 10 + digit_val(s[6])) as u32,
        day: (digit_val(s[8]) * 10 + digit_val(s[9])) as u32,
    }
}

/// Reading the text form of a date gives that date back.
pub proof fn lemma_iso_roundtrip(d: Date)
    requires
        d.wf(),
    ensures
        iso_shape_ok(iso_seq(d)),
        iso_date_of(iso_seq(d)) == d,
{
    let s = iso_seq(d);
    let y = d.year as int;
    assert(digit_val(s[0]) == y / 1000 && digit_val(s[1]) == y / 100 % 10 && digit_val(s[2]) == y
        / 10 % 10 && digit_val(s[3]) == y % 10);
    assert(y / 1000 * 1000 + y / 100 % 10 * 100 + y / 10 % 10 * 10 + y % 10 == y) by {
        lemma_decompose(y);
    };
    let m = d.month as int;
    assert(m / 10 * 10 + m % 10 == m);
    let dd = d.day as int;
    assert(dd / 10 * 10 + dd % 10 == dd);
}

proof fn lemma_decompose(y: int)
    requires
        0 <= y <= 9999,
    ensures
        y / 1000 * 1000 + y / 100 % 10 * 100 + y / 10 % 10 * 10 + y % 10 == y,
{
    assert(y / 1000 * 1000 + y / 100 % 10 * 100 + y / 10 % 10 * 10 + y % 10 == y) by (nonlinear_arith)
        requires
            0 <= y <= 9999,
    ;
}

/// Builds the `YYYY-MM-DD` text of a date.
pub fn date_to_iso(d: &Date) -> (r: String)
    requires
        d.wf(),
    ensures
        r@ == iso_seq(*d),
{
    let mut out = String::new();
    push_char(&mut out, digit_to_char(d.year / 1000));
    push_char(&mut out, digit_to_char(d.year / 100 % 10));
    push_char(&mut out, digit_to_char(d.year / 10 % 10));
    push_char(&mut out, digit_to_char(d.year % 10));
    push_char(&mut out, '-');
    push_char(&mut out, digit_to_char(d.month / 10));
    push_char(&mut out, digit_to_char(d.month % 10));
    push_char(&mut out, '-');
    push_char(&mut out, digit_to_char(d.day / 10));
    push_char(&mut out, digit_to_char(d.day % 10));
    proof {
        assert(out@ =~= iso_seq(*d));
    }
    out
}

/// Reads a date from ten `YYYY-MM-DD` characters of `s` starting at `i`,
/// confirming with the calendar library that the day exists.
pub fn parse_iso_at(s: &str, i: usize) -> (r: Option<Date>)
    requires
        i + 10 <= s@.len(),
    ensures
        r is Some <==> (iso_shape_ok(s@.subrange(i as int, i as int + 10)) && iso_date_of(
            s@.subrange(i as int, i as int + 10),
        ).wf()),
        r is Some ==> r->Some_0 == iso_date_of(s@.subrange(i as int, i as int + 10)),
{
    let ghost sub = s@.subrange(i as int, i as int + 10);
    let slen = s.unicode_len();
    assert(i + 10 <= slen);
    let c0 = s.get_char(i);
    let c1 = s.get_char(i + 1);
    let c2 = s.get_char(i + 2);
    let c3 = s.get_char(i + 3);
    let c4 = s.get_char(i + 4);
    let c5 = s.get_char(i + 5);
    let c6 = s.get_char(i + 6);
    let c7 = s.get_char(i + 7);
    let c8 = s.get_char(i + 8);
    let c9 = s.get_char(i + 9);
    if !(check_digit(c0) && check_digit(c1) && check_digit(c2) && check_digit(c3) && c4 == '-'
        && check_digit(c5) && check_digit(c6) && c7 == '-' && check_digit(c8) && check_digit(c9)) {
        proof {
            assert(!iso_shape_ok(sub));
        }
        return None;
    }
    let year = digit_value(c0) * 1000 + digit_value(c1) * 100 + digit_value(c2) * 10 + digit_value(
        c3,
    );
    let month = digit_value(c5) * 10 + digit_value(c6);
    let day = digit_value(c8) * 10 + digit_value(c9);
    proof {
        assert(iso_shape_ok(sub));
        assert(iso_date_of(sub) == (Date { year, month, day }));
    }
    Date::new(year, month, day)
}

} // verus!
