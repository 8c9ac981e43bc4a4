//! The standalone reader of the fixed-width `YYYYMMDDTHHMMSS[Z]` date form.
use vstd::prelude::*;

use crate::point_time::civil_str_fault;
use crate::point_time::civil_str_value;
use crate::point_time::parse_ymdhms;

verus! {

/// The six fields read from a date string.
#[derive(PartialEq, Eq, Structural, Debug)]
pub struct ParsedDateString {
    pub year: i32,
    pub month: u32,
    pub day: u32,
    pub hour: u32,
    pub min: u32,
    pub sec: u32,
}

impl ParsedDateString {
    /// Parses a date string with format `YYYYMMDDTHHMMSS[Z]`; everything
    /// after the seconds is ignored.
    pub fn parse_from_str(s: &str) -> (r: Result<ParsedDateString, &'static str>)
        ensures
            match r {
                Ok(p) => {
                    let v = civil_str_value(s@);
                    civil_str_fault(s@) == 7 && p.year == v.year && p.month == v.month && p.day
                        == v.day && p.hour == v.hour && p.min == v.min && p.sec == v.sec
                },
                Err(m) => {
                    let code = civil_str_fault(s@);
                    code < 7 && m@ == if code <= 2 {
                        "invalid string"@
                    } else if code == 3 {
                        "invalid string format"@
                    } else if code == 4 {
                        "invalid hour"@
                    } else if code == 5 {
                        "invalid minute"@
                    } else {
                        "invalid second"@
                    }
                },
            },
    {
        match parse_ymdhms(s) {
            Ok(p) => Ok(
                ParsedDateString {
                    year: p.year,
                    month: p.month,
                    day: p.day,
                    hour: p.hour,
                    min: p.min,
                    sec: p.sec,
                },
            ),
            Err(code) => Err(
                if code <= 2 {
                    "invalid string"
                } else if code == 3 {
                    "invalid string format"
                } else if code == 4 {
                    "invalid hour"
                } else if code == 5 {
                    "invalid minute"
                } else {
                    "invalid second"
                },
            ),
        }
    }
}

} // verus!
