//! The civil-time record `(year, month, day, hour, min, sec)` that the whole
//! engine computes with, its lexicographic order, its parser for the
//! `YYYYMMDDTHHMMSS[Z]` form, and calendar-month addition.
use vstd::arithmetic::div_mod::lemma_mod_multiples_vanish;
use vstd::prelude::*;
use vstd::string::StrSliceExecFns;
use vstd::string::StringExecFns;

use crate::civil::days_in_month;
use crate::civil::days_in_month_x;
use crate::civil::is_leap_year;
use crate::civil::Date;
use crate::text::all_digits;
use crate::text::digits_val;
use crate::text::lemma_digits_val_bound;
use crate::text::parse_fixed_u32;
use crate::zone::civil_to_unix_millis;
use crate::zone::zoned_unix_millis;

verus! {

/// A civil time, ordered lexicographically by its six fields.
#[derive(PartialEq, Eq, Structural, PartialOrd, Ord, Debug, Clone)]
pub struct PointTime {
    pub year: i32,
    pub month: u32,
    pub day: u32,
    pub hour: u32,
    pub min: u32,
    pub sec: u32,
}

/// Strict lexicographic order on civil times.
pub open spec fn pt_lt(a: PointTime, b: PointTime) -> bool {
    if a.year != b.year {
        a.year < b.year
    } else if a.month != b.month {
        a.month < b.month
    } else if a.day != b.day {
        a.day < b.day
    } else if a.hour != b.hour {
        a.hour < b.hour
    } else if a.min != b.min {
        a.min < b.min
    } else {
        a.sec < b.sec
    }
}

pub open spec fn pt_le(a: PointTime, b: PointTime) -> bool {
    pt_lt(a, b) || a == b
}

/// The calendar-date part is a real date of the Gregorian calendar.
pub open spec fn pt_valid_date(p: PointTime) -> bool {
    &&& 1 <= p.month <= 12
    &&& 1 <= p.day <= days_in_month(p.year as int, p.month as int)
}

impl PointTime {
    pub open spec fn date_of(self) -> Date {
        Date { year: self.year, month: self.month, day: self.day }
    }

    pub open spec fn with_date(self, d: Date) -> PointTime {
        PointTime {
            year: d.year,
            month: d.month,
            day: d.day,
            hour: self.hour,
            min: self.min,
            sec: self.sec,
        }
    }
}

pub fn pt_lt_x(a: &PointTime, b: &PointTime) -> (r: bool)
    ensures
        r == pt_lt(*a, *b),
{
    if a.year != b.year {
        a.year < b.year
    } else if a.month != b.month {
        a.month < b.month
    } else if a.day != b.day {
        a.day < b.day
    } else if a.hour != b.hour {
        a.hour < b.hour
    } else if a.min != b.min {
        a.min < b.min
    } else {
        a.sec < b.sec
    }
}

pub fn pt_le_x(a: &PointTime, b: &PointTime) -> (r: bool)
    ensures
        r == pt_le(*a, *b),
{
    !pt_lt_x(b, a)
}

pub fn pt_eq_x(a: &PointTime, b: &PointTime) -> (r: bool)
    ensures
        r == (*a == *b),
{
    a.year == b.year && a.month == b.month && a.day == b.day && a.hour == b.hour && a.min == b.min
        && a.sec == b.sec
}

/// Lexicographic order on the time-of-day parts alone.
pub open spec fn hms_le(a: PointTime, b: PointTime) -> bool {
    if a.hour != b.hour {
        a.hour < b.hour
    } else if a.min != b.min {
        a.min < b.min
    } else {
        a.sec <= b.sec
    }
}

pub fn hms_le_x(a: &PointTime, b: &PointTime) -> (r: bool)
    ensures
        r == hms_le(*a, *b),
{
    if a.hour != b.hour {
        a.hour < b.hour
    } else if a.min != b.min {
        a.min < b.min
    } else {
        a.sec <= b.sec
    }
}

// ---------------------------------------------------------------------------
// Parsing the fixed-width `YYYYMMDDTHHMMSS` form.
// ---------------------------------------------------------------------------

pub open spec fn field_digits(s: Seq<char>, a: int, b: int) -> bool {
    all_digits(s.subrange(a, b))
}

pub open spec fn field_val(s: Seq<char>, a: int, b: int) -> int {
    digits_val(s.subrange(a, b))
}

/// Which field of `YYYYMMDDTHHMMSS` fails first, if any: 0 the year (or a
/// short string), 1 the month, 2 the day, 3 the `T` separator, 4 the hour,
/// 5 the minute, 6 the second, 7 none.
pub open spec fn civil_str_fault(s: Seq<char>) -> int {
    if s.len() < 15 || !field_digits(s, 0, 4) {
        0
    } else if !field_digits(s, 4, 6) {
        1
    } else if !field_digits(s, 6, 8) {
        2
    } else if s[8] != 'T' {
        3
    } else if !field_digits(s, 9, 11) {
        4
    } else if !field_digits(s, 11, 13) {
        5
    } else if !field_digits(s, 13, 15) {
        6
    } else {
        7
    }
}

/// The civil time written in a faultless `YYYYMMDDTHHMMSS` string.
pub open spec fn civil_str_value(s: Seq<char>) -> PointTime {
    PointTime {
        year: field_val(s, 0, 4) as i32,
        month: field_val(s, 4, 6) as u32,
        day: field_val(s, 6, 8) as u32,
        hour: field_val(s, 9, 11) as u32,
        min: field_val(s, 11, 13) as u32,
        sec: field_val(s, 13, 15) as u32,
    }
}

/// Reads the fixed-width civil-time form; on failure the code of the first
/// bad field, as `civil_str_fault` gives it.
pub fn parse_ymdhms(s: &str) -> (r: Result<PointTime, u32>)
    ensures
        match r {
            Ok(p) => civil_str_fault(s@) == 7 && p == civil_str_value(s@) && 0 <= p.year <= 9999
                && p.month <= 99 && p.day <= 99 && p.hour <= 99 && p.min <= 99 && p.sec <= 99,
            Err(code) => code == civil_str_fault(s@) && code < 7,
        },
{
    let n = s.unicode_len();
    if n < 15 {
        return Err(0);
    }
    let year = match parse_fixed_u32(s, 0, 4) {
        Some(v) => v,
        None => {
            return Err(0);
        },
    };
    let month = match parse_fixed_u32(s, 4, 6) {
        Some(v) => v,
        None => {
            return Err(1);
        },
    };
    let day = match parse_fixed_u32(s, 6, 8) {
        Some(v) => v,
        None => {
            return Err(2);
        },
    };
    if s.get_char(8) != 'T' {
        return Err(3);
    }
    let hour = match parse_fixed_u32(s, 9, 11) {
        Some(v) => v,
        None => {
            return Err(4);
        },
    };
    let min = match parse_fixed_u32(s, 11, 13) {
        Some(v) => v,
        None => {
            return Err(5);
        },
    };
    let sec = match parse_fixed_u32(s, 13, 15) {
        Some(v) => v,
        None => {
            return Err(6);
        },
    };
    proof {
        lemma_digits_val_bound(s@.subrange(0, 4));
        crate::text::lemma_digits_val_pow(s@.subrange(0, 4));
        assert(crate::text::pow10(4) == 10000) by {
            reveal_with_fuel(crate::text::pow10, 5);
        };
        crate::text::lemma_digits_val_pow(s@.subrange(4, 6));
        crate::text::lemma_digits_val_pow(s@.subrange(6, 8));
        crate::text::lemma_digits_val_pow(s@.subrange(9, 11));
        crate::text::lemma_digits_val_pow(s@.subrange(11, 13));
        crate::text::lemma_digits_val_pow(s@.subrange(13, 15));
        assert(crate::text::pow10(2) == 100) by {
            reveal_with_fuel(crate::text::pow10, 3);
        };
    }
    Ok(PointTime { year: year as i32, month, day, hour, min, sec })
}

/// The message under which each field of the civil form is refused.
pub open spec fn civil_fault_msg(code: int) -> Seq<char> {
    if code == 1 {
        "invalid month"@
    } else if code == 2 {
        "invalid day"@
    } else if code == 3 {
        "invalid string format"@
    } else if code == 4 {
        "invalid hour"@
    } else if code == 5 {
        "invalid minute"@
    } else if code == 6 {
        "invalid second"@
    } else {
        "invalid string"@
    }
}

/// Reads the `YYYYMMDDTHHMMSS[Z]` form into a civil time; anything after the
/// seconds is ignored, and the first bad field names the error.
pub fn parse_point_time(s: &str) -> (r: Result<PointTime, String>)
    ensures
        match r {
            Ok(p) => civil_str_fault(s@) == 7 && p == civil_str_value(s@) && 0 <= p.year <= 9999,
            Err(e) => civil_str_fault(s@) < 7 && e@ == civil_fault_msg(civil_str_fault(s@)),
        },
{
    match parse_ymdhms(s) {
        Ok(p) => Ok(p),
        Err(code) => Err(
            if code == 1 {
                <String as StringExecFns>::from_str("invalid month")
            } else if code == 2 {
                <String as StringExecFns>::from_str("invalid day")
            } else if code == 3 {
                <String as StringExecFns>::from_str("invalid string format")
            } else if code == 4 {
                <String as StringExecFns>::from_str("invalid hour")
            } else if code == 5 {
                <String as StringExecFns>::from_str("invalid minute")
            } else if code == 6 {
                <String as StringExecFns>::from_str("invalid second")
            } else {
                <String as StringExecFns>::from_str("invalid string")
            },
        ),
    }
}

impl core::str::FromStr for PointTime {
    type Err = String;

    fn from_str(s: &str) -> Result<PointTime, String> {
        parse_point_time(s)
    }
}

// ---------------------------------------------------------------------------
// Calendar-month addition.
// ---------------------------------------------------------------------------

/// The month `mon` months after `(y, m)`, counting from 1.
pub open spec fn month_target(y: int, m: int, mon: int) -> (int, int) {
    ((y + (m - 1 + mon) / 12), (m - 1 + mon) % 12 + 1)
}

/// Month addition with the day kept: when the target month is too short the
/// date slides forward one month, which always has the day.
pub open spec fn add_month_spec(p: PointTime, mon: int) -> PointTime {
    let (ty, tm) = month_target(p.year as int, p.month as int, mon);
    if p.day <= days_in_month(ty, tm) {
        PointTime {
            year: ty as i32,
            month: tm as u32,
            day: p.day,
            hour: p.hour,
            min: p.min,
            sec: p.sec,
        }
    } else if tm == 12 {
        PointTime {
            year: (ty + 1) as i32,
            month: 1,
            day: p.day,
            hour: p.hour,
            min: p.min,
            sec: p.sec,
        }
    } else {
        PointTime {
            year: ty as i32,
            month: (tm + 1) as u32,
            day: p.day,
            hour: p.hour,
            min: p.min,
            sec: p.sec,
        }
    }
}

impl PointTime {
    /// Advances by `mon` calendar months; a target month without this day is
    /// skipped forward to the next month, which always has it.
    pub fn add_month(&mut self, mon: u32) -> (r: PointTime)
        requires
            pt_valid_date(*old(self)),
            0 <= old(self).year <= 100_000_000,
        ensures
            *final(self) == *old(self),
            r == add_month_spec(*old(self), mon as int),
            r.day == old(self).day && r.hour == old(self).hour && r.min == old(self).min
                && r.sec == old(self).sec,
            pt_valid_date(r),
            r.year <= old(self).year + mon / 12 + 1,
    {
        let total: u64 = (self.month - 1) as u64 + mon as u64;
        let ty64: i64 = self.year as i64 + (total / 12) as i64;
        let tm: u32 = (total % 12) as u32 + 1;
        let ty: i32 = ty64 as i32;
        proof {
            assert(total as int == self.month - 1 + mon);
            assert((total as int) / 12 == total / 12 && (total as int) % 12 == total % 12);
            assert(ty as int == month_target(self.year as int, self.month as int, mon as int).0);
            assert(tm as int == month_target(self.year as int, self.month as int, mon as int).1);
        }
        let dim = days_in_month_x(ty, tm);
        if self.day <= dim {
            PointTime {
                year: ty,
                month: tm,
                day: self.day,
                hour: self.hour,
                min: self.min,
                sec: self.sec,
            }
        } else if tm == 12 {
            PointTime {
                year: ty + 1,
                month: 1,
                day: self.day,
                hour: self.hour,
                min: self.min,
                sec: self.sec,
            }
        } else {
            PointTime {
                year: ty,
                month: tm + 1,
                day: self.day,
                hour: self.hour,
                min: self.min,
                sec: self.sec,
            }
        }
    }

    /// Whether the date part exists in the calendar.
    pub fn is_valid(&self) -> (r: bool)
        ensures
            r == pt_valid_date(*self),
    {
        if self.month < 1 || self.month > 12 {
            return false;
        }
        if self.day < 1 {
            return false;
        }
        let dim = if self.year >= -1 {
            days_in_month_x(self.year, self.month)
        } else {
            let shifted: u64 = (self.year as i64 + 2_147_484_000) as u64;
            proof {
                lemma_mod_multiples_vanish(5_368_710, self.year as int, 400);
                lemma_mod_multiples_vanish(21_474_840, self.year as int, 100);
                lemma_mod_multiples_vanish(536_871_000, self.year as int, 4);
                assert(is_leap_year(shifted as int) == is_leap_year(self.year as int));
            }
            let leap = shifted % 4 == 0 && (shifted % 100 != 0 || shifted % 400 == 0);
            if self.month == 2 {
                if leap { 29 } else { 28 }
            } else if self.month == 4 || self.month == 6 || self.month == 9 || self.month == 11 {
                30
            } else {
                31
            }
        };
        self.day <= dim
    }

    pub fn get_max_time<'a>(p1: &'a PointTime, p2: &'a PointTime) -> (r: &'a PointTime)
        ensures
            pt_lt(*p2, *p1) ==> r == p1,
            !pt_lt(*p2, *p1) ==> r == p2,
    {
        if pt_lt_x(p2, p1) {
            p1
        } else {
            p2
        }
    }

    pub fn get_min_time<'a>(p1: &'a PointTime, p2: &'a PointTime) -> (r: &'a PointTime)
        ensures
            pt_lt(*p2, *p1) ==> r == p2,
            !pt_lt(*p2, *p1) ==> r == p1,
    {
        if pt_lt_x(p2, p1) {
            p2
        } else {
            p1
        }
    }

    /// The Unix millisecond instant of this civil time read in the named
    /// zone, by the `chrono-tz` zone table; `None` for an unknown zone, an
    /// out-of-range field, or a daylight-saving gap.
    pub fn with_timezone(&self, tz: &str) -> (r: Option<i64>)
        ensures
            match r {
                Some(v) => zoned_unix_millis(
                    self.year as int,
                    self.month as int,
                    self.day as int,
                    self.hour as int,
                    self.min as int,
                    self.sec as int,
                    tz@,
                ) == Some(v as int),
                None => zoned_unix_millis(
                    self.year as int,
                    self.month as int,
                    self.day as int,
                    self.hour as int,
                    self.min as int,
                    self.sec as int,
                    tz@,
                ) is None,
            },
    {
        civil_to_unix_millis(self.year, self.month, self.day, self.hour, self.min, self.sec, tz)
    }
}

} // verus!
