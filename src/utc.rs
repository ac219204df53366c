//! Calendar form of IEC 61850 timestamps.
use vstd::prelude::*;
use crate::types::Timestamp;

verus! {

pub open spec fn is_leap(y: int) -> bool {
    (y % 4 == 0 && y % 100 != 0) || y % 400 == 0
}

pub open spec fn year_days(y: int) -> nat {
    if is_leap(y) {
        366
    } else {
        365
    }
}

/// Days from 1970-01-01 to the first of January of `y`.
pub open spec fn days_before_year(y: int) -> nat
    decreases y - 1970,
{
    if y <= 1970 {
        0
    } else {
        days_before_year(y - 1) + year_days(y - 1)
    }
}

pub open spec fn month_days(y: int, m: int) -> nat {
    if m == 2 {
        if is_leap(y) {
            29
        } else {
            28
        }
    } else if m == 4 || m == 6 || m == 9 || m == 11 {
        30
    } else {
        31
    }
}

/// Days from the first of January of `y` to the first of month `m`.
pub open spec fn days_before_month(y: int, m: int) -> nat
    decreases m,
{
    if m <= 1 {
        0
    } else {
        days_before_month(y, m - 1) + month_days(y, m - 1)
    }
}

/// A UTC date and time of day.
#[derive(Debug, Clone, Copy, PartialEq, Eq)]
pub struct UtcParts {
    pub year: u32,
    pub month: u32,
    pub day: u32,
    pub hour: u32,
    pub minute: u32,
    pub second: u32,
    pub micros: u32,
}

/// The decimal digits of `n`.
pub open spec fn digits(n: nat) -> Seq<char>
    decreases n,
{
    if n < 10 {
        seq![(48 + n) as char]
    } else {
        digits(n / 10).push((48 + n % 10) as char)
    }
}

/// `n` in decimal, with zeros in front up to `w` digits.
pub open spec fn padded(n: nat, w: nat) -> Seq<char> {
    let d = digits(n);
    if d.len() >= w {
        d
    } else {
        Seq::new((w - d.len()) as nat, |i: int| '0') + d
    }
}

/// ISO 8601: `YYYY-MM-DDTHH:MM:SS.uuuuuuZ`.
pub open spec fn utc_text(p: UtcParts) -> Seq<char> {
    padded(p.year as nat, 4) + seq!['-'] + padded(p.month as nat, 2) + seq!['-'] + padded(p.day as nat, 2) + seq!['T']
        + padded(p.hour as nat, 2) + seq![':'] + padded(p.minute as nat, 2) + seq![':'] + padded(p.second as nat, 2)
        + seq!['.'] + padded(p.micros as nat, 6) + seq!['Z']
}

/// Relies on `format!` writing each field in zero-padded decimal.
#[verifier::external_body]
fn format_utc(p: &UtcParts) -> (r: String)
    ensures
        r@ == utc_text(*p),
{
    format!(
        "{:04}-{:02}-{:02}T{:02}:{:02}:{:02}.{:06}Z",
        p.year,
        p.month,
        p.day,
        p.hour,
        p.minute,
        p.second,
        p.micros
    )
}

/// `p` is the calendar form of `t`.
pub open spec fn utc_parts_of(t: Timestamp, p: UtcParts) -> bool {
    &&& 1 <= p.month <= 12
    &&& 1 <= p.day <= month_days(p.year as int, p.month as int)
    &&& p.year >= 1970
    &&& t.seconds as nat / 86400 == days_before_year(p.year as int) + days_before_month(p.year as int, p.month as int)
        + p.day - 1
    &&& p.hour == (t.seconds % 86400) / 3600
    &&& p.minute == (t.seconds % 3600) / 60
    &&& p.second == t.seconds % 60
    &&& p.micros as nat == ((t.fraction as nat * 1_000_000_000 / 0x100_0000) % 0x1_0000_0000) / 1000
}

pub proof fn lemma_days_grow(y: int)
    requires
        y >= 1970,
    ensures
        days_before_year(y) >= 365 * (y - 1970),
    decreases y - 1970,
{
    if y > 1970 {
        lemma_days_grow(y - 1);
    }
}

impl Timestamp {
    /// The calendar date and time of day of the timestamp, in UTC.
    pub fn utc_parts(&self) -> (r: UtcParts)
        ensures
            utc_parts_of(*self, r),
    {
        let mut days: u32 = self.seconds / 86400;
        let rem: u32 = self.seconds % 86400;
        let mut year: u32 = 1970;
        loop
            invariant
                1970 <= year <= 1970 + 137,
                days as nat + days_before_year(year as int) == self.seconds as nat / 86400,
                days as nat <= 0x1_0000_0000,
            ensures
                days as nat + days_before_year(year as int) == self.seconds as nat / 86400,
                (days as nat) < year_days(year as int),
                1970 <= year <= 1970 + 137,
            decreases days,
        {
            let leap = (year % 4 == 0 && year % 100 != 0) || year % 400 == 0;
            let len: u32 = if leap { 366 } else { 365 };
            if days < len {
                break;
            }
            assert(days_before_year(year as int + 1) == days_before_year(year as int) + year_days(year as int));
            days = days - len;
            year = year + 1;
            assert(year <= 1970 + 137) by {
                lemma_days_grow(year as int);
            }
        }
        let leap = (year % 4 == 0 && year % 100 != 0) || year % 400 == 0;
        let mut month: u32 = 1;
        loop
            invariant
                1 <= month <= 12,
                leap == is_leap(year as int),
                days as nat + days_before_month(year as int, month as int) + days_before_year(year as int)
                    == self.seconds as nat / 86400,
                days as nat + days_before_month(year as int, month as int) < year_days(year as int),
            ensures
                1 <= month <= 12,
                days as nat + days_before_month(year as int, month as int) + days_before_year(year as int)
                    == self.seconds as nat / 86400,
                (days as nat) < month_days(year as int, month as int),
            decreases 12 - month,
        {
            let len: u32 = if month == 2 {
                if leap { 29 } else { 28 }
            } else if month == 4 || month == 6 || month == 9 || month == 11 {
                30
            } else {
                31
            };
            assert(len == month_days(year as int, month as int));
            if days < len {
                break;
            }
            if month == 12 {
                proof {
                    reveal_with_fuel(days_before_month, 12);
                }
                break;
            }
            assert(days_before_month(year as int, month as int + 1) == days_before_month(year as int, month as int)
                + month_days(year as int, month as int));
            days = days - len;
            month = month + 1;
        }
        let nanos = self.fraction_as_nanos();
        UtcParts {
            year,
            month,
            day: days + 1,
            hour: rem / 3600,
            minute: (self.seconds % 3600) / 60,
            second: self.seconds % 60,
            micros: nanos / 1000,
        }
    }

    /// The timestamp in ISO 8601 form, e.g. `2023-10-28T14:10:45.125000Z`.
    pub fn to_utc_string(&self) -> (r: String)
        ensures
            exists|p: UtcParts| utc_parts_of(*self, p) && r@ == utc_text(p),
    {
        let p = self.utc_parts();
        format_utc(&p)
    }
}

} // verus!
