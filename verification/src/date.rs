//! Calendar dates and the day arithmetic the hour normalization needs.
//!
//! The provider labels hourly readings with hours `1..=24`, where `24` stands
//! for midnight of the next calendar day, so decoding has to step dates
//! forward (and the wire encoder has to step them back).

use crate::decimal::{all_digits, digits_to_nat, digits_value, check_digits, u64_to_digits, pow10,
    lemma_len_from_bound, lemma_digits_zero_prefix};
use vstd::prelude::*;

verus! {

/// A calendar date in the proleptic Gregorian calendar, with a four-digit year.
#[derive(Clone, Copy, PartialEq, Eq, Structural, Debug)]
pub struct Date {
    pub year: u32,
    pub month: u32,
    pub day: u32,
}

pub open spec fn is_leap_year(y: int) -> bool {
    (y % 4 == 0 && y % 100 != 0) || y % 400 == 0
}

pub open spec fn days_in_month(y: int, m: int) -> int {
    if m == 2 {
        if is_leap_year(y) {
            29
        } else {
            28
        }
    } else if m == 4 || m == 6 || m == 9 || m == 11 {
        30
    } else {
        31
    }
}

impl Date {
    /// A date is valid when its components name a real day of the calendar.
    pub open spec fn valid(self) -> bool {
        &&& 1 <= self.year <= 9999
        &&& 1 <= self.month <= 12
        &&& 1 <= self.day <= days_in_month(self.year as int, self.month as int)
    }

    /// The day after `self`, as a mathematical function.
    pub open spec fn spec_next(self) -> Date {
        if self.day < days_in_month(self.year as int, self.month as int) {
            Date { year: self.year, month: self.month, day: (self.day + 1) as u32 }
        } else if self.month < 12 {
            Date { year: self.year, month: (self.month + 1) as u32, day: 1 }
        } else {
            Date { year: (self.year + 1) as u32, month: 1, day: 1 }
        }
    }

    /// The day before `self`, as a mathematical function.
    pub open spec fn spec_prev(self) -> Date {
        if self.day > 1 {
            Date { year: self.year, month: self.month, day: (self.day - 1) as u32 }
        } else if self.month > 1 {
            Date {
                year: self.year,
                month: (self.month - 1) as u32,
                day: days_in_month(self.year as int, self.month as int - 1) as u32,
            }
        } else {
            Date { year: (self.year - 1) as u32, month: 12, day: 31 }
        }
    }

    /// Number of days in this date's month.
    pub fn month_length(&self) -> (n: u32)
        requires
            1 <= self.month <= 12,
        ensures
            n == days_in_month(self.year as int, self.month as int),
    {
        if self.month == 2 {
            if (self.year % 4 == 0 && self.year % 100 != 0) || self.year % 400 == 0 {
                29
            } else {
                28
            }
        } else if self.month == 4 || self.month == 6 || self.month == 9 || self.month == 11 {
            30
        } else {
            31
        }
    }

    /// The day after `self`.
    pub fn next_day(&self) -> (r: Date)
        requires
            self.valid(),
            self.spec_next().valid(),
        ensures
            r == self.spec_next(),
    {
        let len = self.month_length();
        if self.day < len {
            Date { year: self.year, month: self.month, day: self.day + 1 }
        } else if self.month < 12 {
            Date { year: self.year, month: self.month + 1, day: 1 }
        } else {
            Date { year: self.year + 1, month: 1, day: 1 }
        }
    }

    /// The day before `self`.
    pub fn prev_day(&self) -> (r: Date)
        requires
            self.valid(),
            self.spec_prev().valid(),
        ensures
            r == self.spec_prev(),
    {
        if self.day > 1 {
            Date { year: self.year, month: self.month, day: self.day - 1 }
        } else if self.month > 1 {
            let prev_month = Date { year: self.year, month: self.month - 1, day: 1 };
            let len = prev_month.month_length();
            Date { year: self.year, month: self.month - 1, day: len }
        } else {
            Date { year: self.year - 1, month: 12, day: 31 }
        }
    }
}

/// Stepping forward keeps a date valid as long as the year does not run out.
pub proof fn lemma_next_valid(d: Date)
    requires
        d.valid(),
        !(d.year == 9999 && d.month == 12 && d.day == 31),
    ensures
        d.spec_next().valid(),
{
}

/// Stepping back keeps a date valid as long as the year does not run out.
pub proof fn lemma_prev_valid(d: Date)
    requires
        d.valid(),
        !(d.year == 1 && d.month == 1 && d.day == 1),
    ensures
        d.spec_prev().valid(),
{
}

/// The day before the day after a date is that date again.
pub proof fn lemma_prev_of_next(d: Date)
    requires
        d.valid(),
        d.spec_next().valid(),
    ensures
        d.spec_next().spec_prev() == d,
{
}

/// The day after the day before a date is that date again.
pub proof fn lemma_next_of_prev(d: Date)
    requires
        d.valid(),
        d.spec_prev().valid(),
    ensures
        d.spec_prev().spec_next() == d,
{
}

/// What a raw date field denotes: exactly `YYYY-MM-DD`, naming a real day.
pub open spec fn spec_parse_date(s: Seq<u8>) -> Option<Date> {
    if s.len() == 10 && s[4] == 45 && s[7] == 45 && all_digits(s.subrange(0, 4)) && all_digits(
        s.subrange(5, 7),
    ) && all_digits(s.subrange(8, 10)) {
        let d = Date {
            year: digits_to_nat(s.subrange(0, 4)) as u32,
            month: digits_to_nat(s.subrange(5, 7)) as u32,
            day: digits_to_nat(s.subrange(8, 10)) as u32,
        };
        if d.valid() {
            Some(d)
        } else {
            None
        }
    } else {
        None
    }
}

impl Date {
    /// Whether the components name a real day.
    pub fn is_valid(&self) -> (r: bool)
        ensures
            r == self.valid(),
    {
        1 <= self.year && self.year <= 9999 && 1 <= self.month && self.month <= 12 && 1 <= self.day
            && self.day <= self.month_length()
    }
}

/// Decode a raw `YYYY-MM-DD` date field.
pub fn parse_date(s: &Vec<u8>) -> (r: Option<Date>)
    ensures
        r == spec_parse_date(s@),
        r matches Some(d) ==> d.valid(),
{
    if s.len() != 10 {
        return None;
    }
    if !(s[4] == 45 && s[7] == 45) {
        return None;
    }
    if !(check_digits(s, 0, 4) && check_digits(s, 5, 7) && check_digits(s, 8, 10)) {
        return None;
    }
    let year = digits_value(s, 0, 4);
    let month = digits_value(s, 5, 7);
    let day = digits_value(s, 8, 10);
    proof {
        assert(pow10(4nat) == 10000) by {
            reveal_with_fuel(pow10, 5);
        }
        assert(pow10(2nat) == 100) by {
            reveal_with_fuel(pow10, 3);
        }
    }
    let d = Date { year: year as u32, month: month as u32, day: day as u32 };
    if d.is_valid() {
        Some(d)
    } else {
        None
    }
}

/// The digits of `v`, zero-padded on the left to exactly `width` bytes.
pub fn padded_digits(v: u64, width: usize) -> (r: Vec<u8>)
    requires
        1 <= width <= 19,
        v < pow10(width as nat),
    ensures
        r@.len() == width,
        all_digits(r@),
        digits_to_nat(r@) == v,
{
    let dg = u64_to_digits(v);
    proof {
        lemma_len_from_bound(dg@.len(), v as nat, width as nat);
    }
    let mut out: Vec<u8> = Vec::new();
    let pad = width - dg.len();
    let mut j: usize = 0;
    while j < pad
        invariant
            j <= pad,
            out@.len() == j,
            forall|i: int| 0 <= i < out@.len() ==> #[trigger] out@[i] == 48,
        decreases pad - j,
    {
        out.push(48);
        j = j + 1;
    }
    let ghost zeros = out@;
    crate::bytes::extend_bytes(&mut out, &dg);
    proof {
        lemma_digits_zero_prefix(zeros, dg@);
        assert(all_digits(out@)) by {
            assert(forall|i: int|
                0 <= i < out@.len() ==> out@[i] == (zeros + dg@)[i] && 48 <= #[trigger] (zeros
                    + dg@)[i] <= 57);
        }
    }
    out
}

/// Render a date as `YYYY-MM-DD`; parsing the rendering gives the date back.
pub fn encode_date(d: &Date) -> (r: Vec<u8>)
    requires
        d.valid(),
    ensures
        spec_parse_date(r@) == Some(*d),
        r@.len() == 10,
        all_digits(r@.subrange(0, 4)),
        !r@.contains(34),
{
    proof {
        assert(pow10(4nat) == 10000) by {
            reveal_with_fuel(pow10, 5);
        }
        assert(pow10(2nat) == 100) by {
            reveal_with_fuel(pow10, 3);
        }
    }
    let y = padded_digits(d.year as u64, 4);
    let m = padded_digits(d.month as u64, 2);
    let dd = padded_digits(d.day as u64, 2);
    let mut out = y;
    let ghost ypart = out@;
    out.push(45);
    crate::bytes::extend_bytes(&mut out, &m);
    out.push(45);
    crate::bytes::extend_bytes(&mut out, &dd);
    proof {
        assert(out@.len() == 10);
        assert(out@.subrange(0, 4) =~= ypart);
        assert(out@.subrange(5, 7) =~= m@);
        assert(out@.subrange(8, 10) =~= dd@);
        assert(out@[4] == 45);
        assert(out@[7] == 45);
        assert(!out@.contains(34)) by {
            if out@.contains(34) {
                let i = choose|i: int| 0 <= i < out@.len() && out@[i] == 34;
                if i < 4 {
                    assert(out@.subrange(0, 4)[i] == 34);
                } else if 5 <= i < 7 {
                    assert(out@.subrange(5, 7)[i - 5] == 34);
                } else if 8 <= i < 10 {
                    assert(out@.subrange(8, 10)[i - 8] == 34);
                }
            }
        }
    }
    out
}

} // verus!
