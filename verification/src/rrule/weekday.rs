//! Weekdays and the `BYDAY` specifiers (`MO`, `2TU`, `-1FR`, ...).
use vstd::prelude::*;
use vstd::string::StrSliceExecFns;
use vstd::string::StringExecFns;

use crate::text::signed_val_in;
use crate::text::split_ch;
use crate::text::split_str;
use crate::text::upper_codes;
use crate::text::eq_ignore_case;
use crate::text::parse_signed;

verus! {

/// A day of the week; ordering and numbering start at Monday, as ISO 8601
/// counts weeks.
#[derive(PartialEq, Eq, Structural, Clone, Copy, Debug)]
pub enum Weekday {
    Mon,
    Tue,
    Wed,
    Thu,
    Fri,
    Sat,
    Sun,
}

impl Weekday {
    /// 0 = Monday ... 6 = Sunday.
    pub open spec fn num_spec(self) -> int {
        match self {
            Weekday::Mon => 0,
            Weekday::Tue => 1,
            Weekday::Wed => 2,
            Weekday::Thu => 3,
            Weekday::Fri => 4,
            Weekday::Sat => 5,
            Weekday::Sun => 6,
        }
    }

    pub fn num(&self) -> (r: u32)
        ensures
            r == self.num_spec(),
    {
        match self {
            Weekday::Mon => 0,
            Weekday::Tue => 1,
            Weekday::Wed => 2,
            Weekday::Thu => 3,
            Weekday::Fri => 4,
            Weekday::Sat => 5,
            Weekday::Sun => 6,
        }
    }

    pub open spec fn pred_spec(self) -> Weekday {
        match self {
            Weekday::Mon => Weekday::Sun,
            Weekday::Tue => Weekday::Mon,
            Weekday::Wed => Weekday::Tue,
            Weekday::Thu => Weekday::Wed,
            Weekday::Fri => Weekday::Thu,
            Weekday::Sat => Weekday::Fri,
            Weekday::Sun => Weekday::Sat,
        }
    }

    /// The day before this one.
    pub fn pred(&self) -> (r: Weekday)
        ensures
            r == self.pred_spec(),
            r.num_spec() == (self.num_spec() + 6) % 7,
    {
        match self {
            Weekday::Mon => Weekday::Sun,
            Weekday::Tue => Weekday::Mon,
            Weekday::Wed => Weekday::Tue,
            Weekday::Thu => Weekday::Wed,
            Weekday::Fri => Weekday::Thu,
            Weekday::Sat => Weekday::Fri,
            Weekday::Sun => Weekday::Sat,
        }
    }
}

/// A `BYDAY` entry: every such weekday in the period, or the n-th one.
#[derive(PartialEq, Eq, Structural, Clone, Copy, Debug)]
pub enum NWeekday {
    /// When it is every weekday of the month or year.
    Every(Weekday),
    /// When it is the nth weekday of the month or year, n in
    /// [-366, -1] or [1, 366] depending on frequency.
    Nth(i16, Weekday),
}

impl NWeekday {
    pub open spec fn weekday_of(self) -> Weekday {
        match self {
            NWeekday::Every(w) => w,
            NWeekday::Nth(_, w) => w,
        }
    }

    pub open spec fn nth_of(self) -> int {
        match self {
            NWeekday::Every(_) => 0,
            NWeekday::Nth(n, _) => n as int,
        }
    }

    pub open spec fn is_every_spec(self) -> bool {
        self is Every
    }

    /// Creates a new week occurrence: the n-th such weekday when `number`
    /// is given, else every one.
    #[must_use]
    pub fn new(number: Option<i16>, weekday: Weekday) -> (r: Self)
        ensures
            r == match number {
                Some(n) => NWeekday::Nth(n, weekday),
                None => NWeekday::Every(weekday),
            },
    {
        match number {
            Some(number) => Self::Nth(number, weekday),
            None => Self::Every(weekday),
        }
    }

    pub fn get_weekday(&self) -> (r: &Weekday)
        ensures
            *r == self.weekday_of(),
    {
        match self {
            NWeekday::Every(weekday) => weekday,
            NWeekday::Nth(_, weekday) => weekday,
        }
    }

    /// The two-letter code of a weekday.
    pub fn weekday_to_str(d: &Weekday) -> (r: String)
        ensures
            r@ == weekday_code_spec(*d),
    {
        match d {
            Weekday::Mon => <String as StringExecFns>::from_str("MO"),
            Weekday::Tue => <String as StringExecFns>::from_str("TU"),
            Weekday::Wed => <String as StringExecFns>::from_str("WE"),
            Weekday::Thu => <String as StringExecFns>::from_str("TH"),
            Weekday::Fri => <String as StringExecFns>::from_str("FR"),
            Weekday::Sat => <String as StringExecFns>::from_str("SA"),
            Weekday::Sun => <String as StringExecFns>::from_str("SU"),
        }
    }

    pub fn is_every(&self) -> (r: bool)
        ensures
            r == self.is_every_spec(),
    {
        match self {
            NWeekday::Every(_) => true,
            NWeekday::Nth(_, _) => false,
        }
    }

    pub fn get_nth(&self) -> (r: i16)
        ensures
            r == self.nth_of(),
    {
        match self {
            NWeekday::Every(_) => 0,
            NWeekday::Nth(n, _) => *n,
        }
    }
}

pub open spec fn weekday_code_spec(d: Weekday) -> Seq<char> {
    match d {
        Weekday::Mon => "MO"@,
        Weekday::Tue => "TU"@,
        Weekday::Wed => "WE"@,
        Weekday::Thu => "TH"@,
        Weekday::Fri => "FR"@,
        Weekday::Sat => "SA"@,
        Weekday::Sun => "SU"@,
    }
}

/// The weekday named by a two-letter code, read without regard to case.
pub open spec fn parse_weekday_spec(s: Seq<char>) -> Option<Weekday> {
    if upper_codes(s) == upper_codes("MO"@) {
        Some(Weekday::Mon)
    } else if upper_codes(s) == upper_codes("TU"@) {
        Some(Weekday::Tue)
    } else if upper_codes(s) == upper_codes("WE"@) {
        Some(Weekday::Wed)
    } else if upper_codes(s) == upper_codes("TH"@) {
        Some(Weekday::Thu)
    } else if upper_codes(s) == upper_codes("FR"@) {
        Some(Weekday::Fri)
    } else if upper_codes(s) == upper_codes("SA"@) {
        Some(Weekday::Sat)
    } else if upper_codes(s) == upper_codes("SU"@) {
        Some(Weekday::Sun)
    } else {
        None
    }
}

/// Attempts to convert a `str` to a `Weekday`.
pub fn str_to_weekday(d: &str) -> (r: Result<Weekday, String>)
    ensures
        match r {
            Ok(w) => parse_weekday_spec(d@) == Some(w),
            Err(e) => parse_weekday_spec(d@) is None && e@ == d@,
        },
{
    if eq_ignore_case(d, "MO") {
        Ok(Weekday::Mon)
    } else if eq_ignore_case(d, "TU") {
        Ok(Weekday::Tue)
    } else if eq_ignore_case(d, "WE") {
        Ok(Weekday::Wed)
    } else if eq_ignore_case(d, "TH") {
        Ok(Weekday::Thu)
    } else if eq_ignore_case(d, "FR") {
        Ok(Weekday::Fri)
    } else if eq_ignore_case(d, "SA") {
        Ok(Weekday::Sat)
    } else if eq_ignore_case(d, "SU") {
        Ok(Weekday::Sun)
    } else {
        Err(d.to_owned())
    }
}

/// A `BYDAY` entry: the final two letters name the weekday, an optional
/// signed prefix the occurrence; a malformed prefix counts as "every".
pub open spec fn parse_nweekday_spec(s: Seq<char>) -> Option<NWeekday> {
    if s.len() < 2 {
        None
    } else {
        match parse_weekday_spec(s.subrange(s.len() - 2, s.len() as int)) {
            None => None,
            Some(w) => {
                let nth = match signed_val_in(s.subrange(0, s.len() - 2), -32768, 32767) {
                    Some(v) => v,
                    None => 0,
                };
                if nth == 0 {
                    Some(NWeekday::Every(w))
                } else {
                    Some(NWeekday::Nth(nth as i16, w))
                }
            },
        }
    }
}

/// Generates an [`NWeekday`] from a string such as `TU`, `4MO` or `-1WE`.
pub fn parse_nweekday(value: &str) -> (r: Result<NWeekday, String>)
    ensures
        match r {
            Ok(n) => parse_nweekday_spec(value@) == Some(n),
            Err(e) => parse_nweekday_spec(value@) is None && e@ == value@,
        },
{
    let length = value.unicode_len();
    if length < 2 {
        return Err(value.to_owned());
    }
    let code = value.substring_char(length - 2, length);
    let wd = match str_to_weekday(code) {
        Ok(w) => w,
        Err(_) => {
            return Err(value.to_owned());
        },
    };
    let prefix = value.substring_char(0, length - 2);
    let nth: i64 = match parse_signed(prefix, -32768, 32767) {
        Some(v) => v,
        None => 0,
    };
    if nth == 0 {
        Ok(NWeekday::Every(wd))
    } else {
        Ok(NWeekday::new(Some(nth as i16), wd))
    }
}

impl core::str::FromStr for NWeekday {
    type Err = String;

    fn from_str(value: &str) -> Result<NWeekday, String> {
        parse_nweekday(value)
    }
}

/// The `BYDAY` list as far as every entry reads back, else `None`.
pub open spec fn parse_nweekday_list(parts: Seq<Seq<char>>) -> Option<Seq<NWeekday>>
    decreases parts.len(),
{
    if parts.len() == 0 {
        Some(Seq::empty())
    } else {
        match parse_nweekday_spec(parts[0]) {
            None => None,
            Some(w) => match parse_nweekday_list(parts.drop_first()) {
                None => None,
                Some(rest) => Some(seq![w] + rest),
            },
        }
    }
}

/// Parses a comma-separated `BYDAY`/`BYWEEKDAY` value such as
/// `SU,MO,TU` or `4MO` or `-1WE`.
pub fn parse_weekdays(val: &str) -> (r: Result<Vec<NWeekday>, String>)
    ensures
        match r {
            Ok(v) => parse_nweekday_list(split_ch(val@, ',')) == Some(v@),
            Err(_) => parse_nweekday_list(split_ch(val@, ',')) is None,
        },
{
    let parts = split_str(val, ',');
    let ghost all = split_ch(val@, ',');
    let mut wdays: Vec<NWeekday> = Vec::new();
    let mut i: usize = 0;
    proof {
        assert(all.skip(0) =~= all);
    }
    while i < parts.len()
        invariant
            all == split_ch(val@, ','),
            parts.deep_view() == all,
            parts.len() == all.len(),
            0 <= i <= parts.len(),
            parse_nweekday_list(all) == match parse_nweekday_list(all.skip(i as int)) {
                None => None::<Seq<NWeekday>>,
                Some(rest) => Some(wdays@ + rest),
            },
        decreases parts.len() - i,
    {
        proof {
            assert(all.skip(i as int).len() > 0);
            assert(all.skip(i as int)[0] == all[i as int]);
            assert(all[i as int] == parts.deep_view()[i as int]);
            assert(parts@[i as int]@ == parts.deep_view()[i as int]);
            assert(all.skip(i as int).drop_first() =~= all.skip(i as int + 1));
        }
        let part: &String = &parts[i];
        proof {
            assert(part@ == all[i as int]);
        }
        let wday = match parse_nweekday(part.as_str()) {
            Ok(w) => w,
            Err(e) => {
                proof {
                    assert(parse_nweekday_spec(all.skip(i as int)[0]) is None);
                    assert(parse_nweekday_list(all.skip(i as int)) is None);
                    assert(parse_nweekday_list(all) is None);
                }
                return Err(e);
            },
        };
        let ghost old_w = wdays@;
        wdays.push(wday);
        proof {
            if parse_nweekday_list(all.skip(i as int + 1)) is Some {
                let rest = parse_nweekday_list(all.skip(i as int + 1)).unwrap();
                assert(old_w + (seq![wday] + rest) =~= wdays@ + rest);
            }
        }
        i = i + 1;
    }
    proof {
        assert(all.skip(i as int) =~= Seq::<Seq<char>>::empty());
        assert(wdays@ + Seq::<NWeekday>::empty() =~= wdays@);
    }
    Ok(wdays)
}

} // verus!
