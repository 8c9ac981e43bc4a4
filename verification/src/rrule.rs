//! The RRULE record: its fields, its textual property grammar, and the
//! reading of `DTSTART` lines.
use vstd::prelude::*;
use vstd::string::StrSliceExecFns;
use vstd::string::StringExecFns;

use crate::point_time::civil_str_fault;
use crate::point_time::civil_str_value;
use crate::point_time::parse_ymdhms;
use crate::point_time::pt_eq_x;
use crate::point_time::pt_valid_date;
use crate::point_time::PointTime;
use crate::text::eq_ignore_case;
use crate::text::parse_signed;
use crate::text::signed_val_in;
use crate::text::split_ch;
use crate::text::split_str;
use crate::text::upper_codes;
use crate::zone::tz_name_valid;
use crate::zone::zone_name_ok;

pub mod frequency;
pub mod weekday;

pub use frequency::Frequency;
use frequency::parse_frequency;
use frequency::parse_frequency_spec;
use weekday::parse_nweekday_list;
use weekday::parse_weekday_spec;
use weekday::parse_weekdays;
use weekday::str_to_weekday;
use weekday::NWeekday;
use weekday::Weekday;

verus! {

/// The mathematical image of an [`RRule`]: the same fields with sequences
/// for the vectors and unbounded integers for the scalars.
pub ghost struct RRuleView {
    pub freq: Frequency,
    pub until: Option<PointTime>,
    pub count: int,
    pub by_day: Seq<NWeekday>,
    pub interval: int,
    pub week_start: Weekday,
    pub by_month_day: Seq<int>,
    pub by_year_day: Seq<int>,
    pub by_week_no: Seq<int>,
    pub by_month: Seq<int>,
}

/// A parsed recurrence rule.
#[derive(Debug)]
pub struct RRule {
    pub freq: Frequency,
    pub until: Option<PointTime>,
    pub count: u32,
    pub by_day: Vec<NWeekday>,
    pub interval: u32,
    pub week_start: Weekday,
    pub by_month_day: Vec<i16>,
    pub by_year_day: Vec<i16>,
    pub by_week_no: Vec<i8>,
    pub by_month: Vec<u8>,
}

impl View for RRule {
    type V = RRuleView;

    open spec fn view(&self) -> RRuleView {
        RRuleView {
            freq: self.freq,
            until: self.until,
            count: self.count as int,
            by_day: self.by_day@,
            interval: self.interval as int,
            week_start: self.week_start,
            by_month_day: self.by_month_day@.map_values(|x: i16| x as int),
            by_year_day: self.by_year_day@.map_values(|x: i16| x as int),
            by_week_no: self.by_week_no@.map_values(|x: i8| x as int),
            by_month: self.by_month@.map_values(|x: u8| x as int),
        }
    }
}

/// The rule every field starts from: weekly, unbounded, stride one, weeks
/// beginning on Monday, no BY* constraint.
pub open spec fn default_rrule_view() -> RRuleView {
    RRuleView {
        freq: Frequency::Weekly,
        until: None,
        count: 0,
        by_day: Seq::empty(),
        interval: 1,
        week_start: Weekday::Mon,
        by_month_day: Seq::empty(),
        by_year_day: Seq::empty(),
        by_week_no: Seq::empty(),
        by_month: Seq::empty(),
    }
}

// ---------------------------------------------------------------------------
// Comma-separated integer lists: malformed or out-of-range entries are
// dropped, so one bad entry never voids the rest.
// ---------------------------------------------------------------------------

/// The values of the well-formed entries among `parts`, in order.
pub open spec fn int_list_spec(parts: Seq<Seq<char>>, lo: int, hi: int) -> Seq<int>
    decreases parts.len(),
{
    if parts.len() == 0 {
        Seq::empty()
    } else {
        let rest = int_list_spec(parts.drop_first(), lo, hi);
        match signed_val_in(parts[0], lo, hi) {
            Some(v) => seq![v] + rest,
            None => rest,
        }
    }
}

/// Reads a comma-separated list of integers in `[lo, hi]`, dropping the
/// entries that do not parse.
fn parse_int_list(val: &str, lo: i64, hi: i64) -> (r: Vec<i64>)
    requires
        -10_000_000_000 <= lo <= hi <= 10_000_000_000,
    ensures
        r@.map_values(|x: i64| x as int) == int_list_spec(split_ch(val@, ','), lo as int, hi as int),
        forall|j: int| 0 <= j < r.len() ==> lo <= #[trigger] r@[j] <= hi,
{
    let parts = split_str(val, ',');
    let ghost all = split_ch(val@, ',');
    let mut out: Vec<i64> = Vec::new();
    let mut i: usize = 0;
    proof {
        assert(all.skip(0) =~= all);
        assert(out@.map_values(|x: i64| x as int) =~= Seq::<int>::empty());
    }
    while i < parts.len()
        invariant
            all == split_ch(val@, ','),
            -10_000_000_000 <= lo <= hi <= 10_000_000_000,
            parts.deep_view() == all,
            parts.len() == all.len(),
            0 <= i <= parts.len(),
            out@.map_values(|x: i64| x as int) + int_list_spec(all.skip(i as int), lo as int, hi as int)
                == int_list_spec(all, lo as int, hi as int),
            forall|j: int| 0 <= j < out.len() ==> lo <= #[trigger] out@[j] <= hi,
        decreases parts.len() - i,
    {
        proof {
            assert(all.skip(i as int)[0] == all[i as int]);
            assert(parts@[i as int]@ == parts.deep_view()[i as int]);
            assert(all.skip(i as int).drop_first() =~= all.skip(i as int + 1));
        }
        let part: &String = &parts[i];
        let ghost old_map = out@.map_values(|x: i64| x as int);
        match parse_signed(part.as_str(), lo, hi) {
            Some(v) => {
                out.push(v);
                proof {
                    assert(out@.map_values(|x: i64| x as int) =~= old_map.push(v as int));
                    assert(old_map.push(v as int) =~= old_map + seq![v as int]);
                    assert(old_map + (seq![v as int] + int_list_spec(
                        all.skip(i as int + 1),
                        lo as int,
                        hi as int,
                    )) =~= (old_map + seq![v as int]) + int_list_spec(
                        all.skip(i as int + 1),
                        lo as int,
                        hi as int,
                    ));
                }
            },
            None => {},
        }
        i = i + 1;
    }
    proof {
        assert(all.skip(i as int) =~= Seq::<Seq<char>>::empty());
        assert(out@.map_values(|x: i64| x as int) + Seq::<int>::empty() =~= out@.map_values(
            |x: i64| x as int,
        ));
    }
    out
}

fn to_i16_vec(v: Vec<i64>) -> (r: Vec<i16>)
    requires
        forall|j: int| 0 <= j < v.len() ==> -32768 <= #[trigger] v@[j] <= 32767,
    ensures
        r@.map_values(|x: i16| x as int) == v@.map_values(|x: i64| x as int),
{
    let mut r: Vec<i16> = Vec::new();
    let mut i: usize = 0;
    proof {
        assert(r@.map_values(|x: i16| x as int) =~= v@.map_values(|x: i64| x as int).take(0));
    }
    while i < v.len()
        invariant
            forall|j: int| 0 <= j < v.len() ==> -32768 <= #[trigger] v@[j] <= 32767,
            0 <= i <= v.len(),
            r@.map_values(|x: i16| x as int) == v@.map_values(|x: i64| x as int).take(i as int),
        decreases v.len() - i,
    {
        let ghost old_map = r@.map_values(|x: i16| x as int);
        r.push(v[i] as i16);
        proof {
            assert(r@.map_values(|x: i16| x as int) =~= old_map.push(v@[i as int] as int));
            assert(v@.map_values(|x: i64| x as int).take(i as int + 1) =~= old_map.push(
                v@[i as int] as int,
            ));
        }
        i = i + 1;
    }
    proof {
        assert(v@.map_values(|x: i64| x as int).take(v.len() as int) =~= v@.map_values(
            |x: i64| x as int,
        ));
    }
    r
}

fn to_i8_vec(v: Vec<i64>) -> (r: Vec<i8>)
    requires
        forall|j: int| 0 <= j < v.len() ==> -128 <= #[trigger] v@[j] <= 127,
    ensures
        r@.map_values(|x: i8| x as int) == v@.map_values(|x: i64| x as int),
{
    let mut r: Vec<i8> = Vec::new();
    let mut i: usize = 0;
    proof {
        assert(r@.map_values(|x: i8| x as int) =~= v@.map_values(|x: i64| x as int).take(0));
    }
    while i < v.len()
        invariant
            forall|j: int| 0 <= j < v.len() ==> -128 <= #[trigger] v@[j] <= 127,
            0 <= i <= v.len(),
            r@.map_values(|x: i8| x as int) == v@.map_values(|x: i64| x as int).take(i as int),
        decreases v.len() - i,
    {
        let ghost old_map = r@.map_values(|x: i8| x as int);
        r.push(v[i] as i8);
        proof {
            assert(r@.map_values(|x: i8| x as int) =~= old_map.push(v@[i as int] as int));
            assert(v@.map_values(|x: i64| x as int).take(i as int + 1) =~= old_map.push(
                v@[i as int] as int,
            ));
        }
        i = i + 1;
    }
    proof {
        assert(v@.map_values(|x: i64| x as int).take(v.len() as int) =~= v@.map_values(
            |x: i64| x as int,
        ));
    }
    r
}

fn to_u8_vec(v: Vec<i64>) -> (r: Vec<u8>)
    requires
        forall|j: int| 0 <= j < v.len() ==> 0 <= #[trigger] v@[j] <= 255,
    ensures
        r@.map_values(|x: u8| x as int) == v@.map_values(|x: i64| x as int),
{
    let mut r: Vec<u8> = Vec::new();
    let mut i: usize = 0;
    proof {
        assert(r@.map_values(|x: u8| x as int) =~= v@.map_values(|x: i64| x as int).take(0));
    }
    while i < v.len()
        invariant
            forall|j: int| 0 <= j < v.len() ==> 0 <= #[trigger] v@[j] <= 255,
            0 <= i <= v.len(),
            r@.map_values(|x: u8| x as int) == v@.map_values(|x: i64| x as int).take(i as int),
        decreases v.len() - i,
    {
        let ghost old_map = r@.map_values(|x: u8| x as int);
        r.push(v[i] as u8);
        proof {
            assert(r@.map_values(|x: u8| x as int) =~= old_map.push(v@[i as int] as int));
            assert(v@.map_values(|x: i64| x as int).take(i as int + 1) =~= old_map.push(
                v@[i as int] as int,
            ));
        }
        i = i + 1;
    }
    proof {
        assert(v@.map_values(|x: i64| x as int).take(v.len() as int) =~= v@.map_values(
            |x: i64| x as int,
        ));
    }
    r
}

// ---------------------------------------------------------------------------
// One `KEY=value` property.
// ---------------------------------------------------------------------------

#[derive(Debug)]
pub enum RRuleProperty {
    Freq(Frequency),
    Until(PointTime),
    Count(u32),
    Interval(u32),
    BySecond,
    ByMinute,
    ByHour,
    ByDay(Vec<NWeekday>),
    ByMonthDay(Vec<i16>),
    ByYearDay(Vec<i16>),
    ByWeekNo(Vec<i8>),
    ByMonth(Vec<u8>),
    BySetPos,
    Wkst(Weekday),
}

/// Whether `part` reads, without regard to the key's case, as `KEY=value`
/// with the given key.
pub open spec fn prop_key_is(part: Seq<char>, key: Seq<char>) -> bool {
    &&& split_ch(part, '=').len() == 2
    &&& upper_codes(split_ch(part, '=')[0]) == upper_codes(key)
}

pub open spec fn prop_val(part: Seq<char>) -> Seq<char> {
    split_ch(part, '=')[1]
}

pub open spec fn count_of_val(v: Seq<char>) -> int {
    match signed_val_in(v, 0, 4294967295) {
        Some(n) => n,
        None => 0,
    }
}

pub open spec fn interval_of_val(v: Seq<char>) -> int {
    match signed_val_in(v, 0, 4294967295) {
        Some(n) => n,
        None => 1,
    }
}

/// How one property changes the rule under construction: a malformed value
/// of a critical field leaves the rule as it was, a malformed numeric count
/// or interval falls back to its default, and an unknown key is ignored.
pub open spec fn apply_prop(st: RRuleView, part: Seq<char>) -> RRuleView {
    if split_ch(part, '=').len() != 2 {
        st
    } else {
        let v = prop_val(part);
        if prop_key_is(part, "FREQ"@) {
            match parse_frequency_spec(v) {
                Some(f) => RRuleView { freq: f, ..st },
                None => st,
            }
        } else if prop_key_is(part, "UNTIL"@) {
            if civil_str_fault(v) == 7 {
                RRuleView { until: Some(civil_str_value(v)), ..st }
            } else {
                st
            }
        } else if prop_key_is(part, "COUNT"@) {
            RRuleView { count: count_of_val(v), ..st }
        } else if prop_key_is(part, "INTERVAL"@) {
            RRuleView { interval: interval_of_val(v), ..st }
        } else if prop_key_is(part, "BYWEEKDAY"@) || prop_key_is(part, "BYDAY"@) {
            match parse_nweekday_list(split_ch(v, ',')) {
                Some(l) => RRuleView { by_day: l, ..st },
                None => st,
            }
        } else if prop_key_is(part, "BYMONTHDAY"@) {
            RRuleView { by_month_day: int_list_spec(split_ch(v, ','), -32768, 32767), ..st }
        } else if prop_key_is(part, "BYYEARDAY"@) {
            RRuleView { by_year_day: int_list_spec(split_ch(v, ','), -32768, 32767), ..st }
        } else if prop_key_is(part, "BYWEEKNO"@) {
            RRuleView { by_week_no: int_list_spec(split_ch(v, ','), -128, 127), ..st }
        } else if prop_key_is(part, "BYMONTH"@) {
            RRuleView { by_month: int_list_spec(split_ch(v, ','), 0, 255), ..st }
        } else if prop_key_is(part, "WKST"@) {
            match parse_weekday_spec(v) {
                Some(w) => RRuleView { week_start: w, ..st },
                None => st,
            }
        } else {
            st
        }
    }
}

/// The properties applied left to right.
pub open spec fn apply_props(st: RRuleView, parts: Seq<Seq<char>>) -> RRuleView
    decreases parts.len(),
{
    if parts.len() == 0 {
        st
    } else {
        apply_props(apply_prop(st, parts[0]), parts.drop_first())
    }
}

/// The rule written in `s`: an optional `RRULE:` prefix, then `;`-separated
/// properties.
pub open spec fn rrule_str_view(s: Seq<char>) -> RRuleView {
    let lines = split_ch(s, ':');
    let body = if lines.len() == 2 {
        lines[1]
    } else {
        lines[0]
    };
    apply_props(default_rrule_view(), split_ch(body, ';'))
}

/// Whether `part` reads as the given property: the right key (without
/// regard to case) and a value that yields exactly the carried payload.
pub open spec fn prop_matches(s: Seq<char>, p: RRuleProperty) -> bool {
    split_ch(s, '=').len() == 2 && {
        let v = prop_val(s);
        match p {
            RRuleProperty::Freq(f) => prop_key_is(s, "FREQ"@) && parse_frequency_spec(v) == Some(
                f,
            ),
            RRuleProperty::Until(t) => prop_key_is(s, "UNTIL"@) && civil_str_fault(v) == 7 && t
                == civil_str_value(v),
            RRuleProperty::Count(c) => prop_key_is(s, "COUNT"@) && c as int == count_of_val(v),
            RRuleProperty::Interval(n) => prop_key_is(s, "INTERVAL"@) && n as int
                == interval_of_val(v),
            RRuleProperty::BySecond => prop_key_is(s, "BYSECOND"@),
            RRuleProperty::ByMinute => prop_key_is(s, "BYMINUTE"@),
            RRuleProperty::ByHour => prop_key_is(s, "BYHOUR"@),
            RRuleProperty::ByDay(l) => (prop_key_is(s, "BYWEEKDAY"@) || prop_key_is(s, "BYDAY"@))
                && parse_nweekday_list(split_ch(v, ',')) == Some(l@),
            RRuleProperty::ByMonthDay(l) => prop_key_is(s, "BYMONTHDAY"@) && l@.map_values(
                |x: i16| x as int,
            ) == int_list_spec(split_ch(v, ','), -32768, 32767),
            RRuleProperty::ByYearDay(l) => prop_key_is(s, "BYYEARDAY"@) && l@.map_values(
                |x: i16| x as int,
            ) == int_list_spec(split_ch(v, ','), -32768, 32767),
            RRuleProperty::ByWeekNo(l) => prop_key_is(s, "BYWEEKNO"@) && l@.map_values(
                |x: i8| x as int,
            ) == int_list_spec(split_ch(v, ','), -128, 127),
            RRuleProperty::ByMonth(l) => prop_key_is(s, "BYMONTH"@) && l@.map_values(
                |x: u8| x as int,
            ) == int_list_spec(split_ch(v, ','), 0, 255),
            RRuleProperty::BySetPos => prop_key_is(s, "BYSETPOS"@),
            RRuleProperty::Wkst(w) => prop_key_is(s, "WKST"@) && parse_weekday_spec(v) == Some(w),
        }
    }
}

/// When no property reads from `part`: no `KEY=value` shape, a critical
/// value that does not parse, or a key that is not recognised.
pub open spec fn prop_parse_fails(s: Seq<char>) -> bool {
    ||| split_ch(s, '=').len() != 2
    ||| (prop_key_is(s, "FREQ"@) && parse_frequency_spec(prop_val(s)) is None)
    ||| (prop_key_is(s, "UNTIL"@) && civil_str_fault(prop_val(s)) != 7)
    ||| ((prop_key_is(s, "BYWEEKDAY"@) || prop_key_is(s, "BYDAY"@)) && parse_nweekday_list(
        split_ch(prop_val(s), ','),
    ) is None)
    ||| (prop_key_is(s, "WKST"@) && parse_weekday_spec(prop_val(s)) is None)
    ||| (!prop_key_is(s, "FREQ"@) && !prop_key_is(s, "UNTIL"@) && !prop_key_is(s, "COUNT"@)
        && !prop_key_is(s, "INTERVAL"@) && !prop_key_is(s, "BYSECOND"@) && !prop_key_is(
        s,
        "BYMINUTE"@,
    ) && !prop_key_is(s, "BYHOUR"@) && !prop_key_is(s, "BYWEEKDAY"@) && !prop_key_is(s, "BYDAY"@)
        && !prop_key_is(s, "BYMONTHDAY"@) && !prop_key_is(s, "BYYEARDAY"@) && !prop_key_is(
        s,
        "BYWEEKNO"@,
    ) && !prop_key_is(s, "BYMONTH"@) && !prop_key_is(s, "BYSETPOS"@) && !prop_key_is(s, "WKST"@))
}

/// Parses one property such as `FREQ=WEEKLY`.
pub fn parse_property(s: &str) -> (r: Result<RRuleProperty, String>)
    ensures
        match r {
            Ok(p) => prop_matches(s@, p),
            Err(_) => prop_parse_fails(s@),
        },
{
    let key_value = split_str(s, '=');
    if key_value.len() != 2 {
        return Err(<String as StringExecFns>::from_str("invalid rrule property"));
    }
    proof {
        assert(key_value@[0]@ == split_ch(s@, '=')[0]);
        assert(key_value@[1]@ == split_ch(s@, '=')[1]);
    }
    let key: &str = key_value[0].as_str();
    let value: &str = key_value[1].as_str();
    if eq_ignore_case(key, "FREQ") {
        match parse_frequency(value) {
            Ok(f) => Ok(RRuleProperty::Freq(f)),
            Err(e) => Err(e),
        }
    } else if eq_ignore_case(key, "UNTIL") {
        match crate::point_time::parse_point_time(value) {
            Ok(p) => Ok(RRuleProperty::Until(p)),
            Err(e) => Err(e),
        }
    } else if eq_ignore_case(key, "COUNT") {
        match parse_signed(value, 0, 4294967295) {
            Some(n) => Ok(RRuleProperty::Count(n as u32)),
            None => Ok(RRuleProperty::Count(0)),
        }
    } else if eq_ignore_case(key, "INTERVAL") {
        match parse_signed(value, 0, 4294967295) {
            Some(n) => Ok(RRuleProperty::Interval(n as u32)),
            None => Ok(RRuleProperty::Interval(1)),
        }
    } else if eq_ignore_case(key, "BYSECOND") {
        Ok(RRuleProperty::BySecond)
    } else if eq_ignore_case(key, "BYMINUTE") {
        Ok(RRuleProperty::ByMinute)
    } else if eq_ignore_case(key, "BYHOUR") {
        Ok(RRuleProperty::ByHour)
    } else if eq_ignore_case(key, "BYWEEKDAY") || eq_ignore_case(key, "BYDAY") {
        match parse_weekdays(value) {
            Ok(l) => Ok(RRuleProperty::ByDay(l)),
            Err(e) => Err(e),
        }
    } else if eq_ignore_case(key, "BYMONTHDAY") {
        Ok(RRuleProperty::ByMonthDay(to_i16_vec(parse_int_list(value, -32768, 32767))))
    } else if eq_ignore_case(key, "BYYEARDAY") {
        Ok(RRuleProperty::ByYearDay(to_i16_vec(parse_int_list(value, -32768, 32767))))
    } else if eq_ignore_case(key, "BYWEEKNO") {
        Ok(RRuleProperty::ByWeekNo(to_i8_vec(parse_int_list(value, -128, 127))))
    } else if eq_ignore_case(key, "BYMONTH") {
        Ok(RRuleProperty::ByMonth(to_u8_vec(parse_int_list(value, 0, 255))))
    } else if eq_ignore_case(key, "BYSETPOS") {
        Ok(RRuleProperty::BySetPos)
    } else if eq_ignore_case(key, "WKST") {
        match str_to_weekday(value) {
            Ok(w) => Ok(RRuleProperty::Wkst(w)),
            Err(e) => Err(e),
        }
    } else {
        Err(s.to_owned())
    }
}

impl core::str::FromStr for RRuleProperty {
    type Err = String;

    /// Parses one property such as `FREQ=WEEKLY`.
    fn from_str(s: &str) -> Result<RRuleProperty, String> {
        parse_property(s)
    }
}

impl RRule {
    /// The rule every field starts from.
    pub fn default() -> (r: RRule)
        ensures
            r@ == default_rrule_view(),
    {
        let r = RRule {
            freq: Frequency::Weekly,
            count: 0,
            by_day: Vec::new(),
            until: None,
            interval: 1,
            week_start: Weekday::Mon,
            by_month_day: Vec::new(),
            by_year_day: Vec::new(),
            by_week_no: Vec::new(),
            by_month: Vec::new(),
        };
        proof {
            assert(r@.by_day =~= default_rrule_view().by_day);
            assert(r@.by_month_day =~= default_rrule_view().by_month_day);
            assert(r@.by_year_day =~= default_rrule_view().by_year_day);
            assert(r@.by_week_no =~= default_rrule_view().by_week_no);
            assert(r@.by_month =~= default_rrule_view().by_month);
        }
        r
    }

    /// Reads a single `RRULE:FREQ=...;...` line (or its bare property list);
    /// `DTSTART` is not handled here. Unknown keys and malformed values are
    /// passed over, as `rrule_str_view` describes.
    pub fn from_str(rrule_str: &str) -> (r: RRule)
        ensures
            r@ == rrule_str_view(rrule_str@),
    {
        let lines = split_str(rrule_str, ':');
        let body: &str = if lines.len() == 2 {
            lines[1].as_str()
        } else {
            lines[0].as_str()
        };
        proof {
            let ls = split_ch(rrule_str@, ':');
            assert(lines.deep_view().len() == lines.len());
            if lines.len() == 2 {
                assert(lines@[1]@ == ls[1]);
            } else {
                assert(lines@[0]@ == ls[0]);
            }
        }
        let parts = split_str(body, ';');
        let ghost all = split_ch(body@, ';');

        let mut rule = RRule::default();
        let mut i: usize = 0;
        proof {
            assert(all.skip(0) =~= all);
        }
        while i < parts.len()
            invariant
                all == split_ch(body@, ';'),
                parts.deep_view() == all,
                parts.len() == all.len(),
                0 <= i <= parts.len(),
                apply_props(default_rrule_view(), all) == apply_props(rule@, all.skip(i as int)),
            decreases parts.len() - i,
        {
            proof {
                assert(all.skip(i as int)[0] == all[i as int]);
                assert(parts@[i as int]@ == parts.deep_view()[i as int]);
                assert(all.skip(i as int).drop_first() =~= all.skip(i as int + 1));
            }
            let part: &str = parts[i].as_str();
            let ghost st = rule@;
            let key_value = split_str(part, '=');
            if key_value.len() == 2 {
                let key: &str = key_value[0].as_str();
                let value: &str = key_value[1].as_str();
                proof {
                    assert(key_value@[0]@ == split_ch(part@, '=')[0]);
                    assert(key_value@[1]@ == split_ch(part@, '=')[1]);
                }
                if eq_ignore_case(key, "FREQ") {
                    match parse_frequency(value) {
                        Ok(f) => {
                            rule.freq = f;
                        },
                        Err(_) => {},
                    }
                } else if eq_ignore_case(key, "UNTIL") {
                    match parse_ymdhms(value) {
                        Ok(p) => {
                            rule.until = Some(p);
                        },
                        Err(_) => {},
                    }
                } else if eq_ignore_case(key, "COUNT") {
                    match parse_signed(value, 0, 4294967295) {
                        Some(n) => {
                            rule.count = n as u32;
                        },
                        None => {
                            rule.count = 0;
                        },
                    }
                } else if eq_ignore_case(key, "INTERVAL") {
                    match parse_signed(value, 0, 4294967295) {
                        Some(n) => {
                            rule.interval = n as u32;
                        },
                        None => {
                            rule.interval = 1;
                        },
                    }
                } else if eq_ignore_case(key, "BYWEEKDAY") || eq_ignore_case(key, "BYDAY") {
                    match parse_weekdays(value) {
                        Ok(l) => {
                            rule.by_day = l;
                        },
                        Err(_) => {},
                    }
                } else if eq_ignore_case(key, "BYMONTHDAY") {
                    rule.by_month_day = to_i16_vec(parse_int_list(value, -32768, 32767));
                } else if eq_ignore_case(key, "BYYEARDAY") {
                    rule.by_year_day = to_i16_vec(parse_int_list(value, -32768, 32767));
                } else if eq_ignore_case(key, "BYWEEKNO") {
                    rule.by_week_no = to_i8_vec(parse_int_list(value, -128, 127));
                } else if eq_ignore_case(key, "BYMONTH") {
                    rule.by_month = to_u8_vec(parse_int_list(value, 0, 255));
                } else if eq_ignore_case(key, "WKST") {
                    match str_to_weekday(value) {
                        Ok(w) => {
                            rule.week_start = w;
                        },
                        Err(_) => {},
                    }
                }
            }
            proof {
                assert(rule@ == apply_prop(st, all[i as int]));
            }
            i = i + 1;
        }
        proof {
            assert(all.skip(i as int) =~= Seq::<Seq<char>>::empty());
        }
        rule
    }

    pub fn set_count(&mut self, count: u32)
        ensures
            *final(self) == (RRule { count, ..*old(self) }),
    {
        self.count = count;
    }

    /// Replaces `until` when the string parses; otherwise leaves it.
    pub fn set_until(&mut self, str: &str)
        ensures
            civil_str_fault(str@) == 7 ==> *final(self) == (RRule {
                until: Some(civil_str_value(str@)),
                ..*old(self)
            }),
            civil_str_fault(str@) != 7 ==> *final(self) == *old(self),
    {
        match parse_ymdhms(str) {
            Ok(p) => {
                self.until = Some(p);
            },
            Err(_) => {},
        }
    }
}

impl PartialEq for RRule {
    fn eq(&self, other: &RRule) -> (r: bool) {
        let untils_eq = match (&self.until, &other.until) {
            (Some(a), Some(b)) => pt_eq_x(a, b),
            (None, None) => true,
            _ => false,
        };
        untils_eq && self.freq == other.freq && self.count == other.count && self.interval
            == other.interval && self.week_start == other.week_start && eq_vec_nweekday(
            &self.by_day,
            &other.by_day,
        ) && eq_vec_i16(&self.by_month_day, &other.by_month_day) && eq_vec_i16(
            &self.by_year_day,
            &other.by_year_day,
        ) && eq_vec_i8(&self.by_week_no, &other.by_week_no) && eq_vec_u8(
            &self.by_month,
            &other.by_month,
        )
    }
}

impl vstd::std_specs::cmp::PartialEqSpecImpl for RRule {
    open spec fn obeys_eq_spec() -> bool {
        true
    }

    open spec fn eq_spec(&self, other: &RRule) -> bool {
        &&& self.freq == other.freq
        &&& self.until == other.until
        &&& self.count == other.count
        &&& self.by_day@ == other.by_day@
        &&& self.interval == other.interval
        &&& self.week_start == other.week_start
        &&& self.by_month_day@ == other.by_month_day@
        &&& self.by_year_day@ == other.by_year_day@
        &&& self.by_week_no@ == other.by_week_no@
        &&& self.by_month@ == other.by_month@
    }
}

fn eq_vec_nweekday(a: &Vec<NWeekday>, b: &Vec<NWeekday>) -> (r: bool)
    ensures
        r == (a@ == b@),
{
    if a.len() != b.len() {
        return false;
    }
    let mut i: usize = 0;
    while i < a.len()
        invariant
            a.len() == b.len(),
            0 <= i <= a.len(),
            forall|j: int| 0 <= j < i ==> a@[j] == b@[j],
        decreases a.len() - i,
    {
        if a[i] != b[i] {
            return false;
        }
        i = i + 1;
    }
    proof {
        assert(a@ =~= b@);
    }
    true
}

fn eq_vec_i16(a: &Vec<i16>, b: &Vec<i16>) -> (r: bool)
    ensures
        r == (a@ == b@),
{
    if a.len() != b.len() {
        return false;
    }
    let mut i: usize = 0;
    while i < a.len()
        invariant
            a.len() == b.len(),
            0 <= i <= a.len(),
            forall|j: int| 0 <= j < i ==> a@[j] == b@[j],
        decreases a.len() - i,
    {
        if a[i] != b[i] {
            return false;
        }
        i = i + 1;
    }
    proof {
        assert(a@ =~= b@);
    }
    true
}

fn eq_vec_i8(a: &Vec<i8>, b: &Vec<i8>) -> (r: bool)
    ensures
        r == (a@ == b@),
{
    if a.len() != b.len() {
        return false;
    }
    let mut i: usize = 0;
    while i < a.len()
        invariant
            a.len() == b.len(),
            0 <= i <= a.len(),
            forall|j: int| 0 <= j < i ==> a@[j] == b@[j],
        decreases a.len() - i,
    {
        if a[i] != b[i] {
            return false;
        }
        i = i + 1;
    }
    proof {
        assert(a@ =~= b@);
    }
    true
}

fn eq_vec_u8(a: &Vec<u8>, b: &Vec<u8>) -> (r: bool)
    ensures
        r == (a@ == b@),
{
    if a.len() != b.len() {
        return false;
    }
    let mut i: usize = 0;
    while i < a.len()
        invariant
            a.len() == b.len(),
            0 <= i <= a.len(),
            forall|j: int| 0 <= j < i ==> a@[j] == b@[j],
        decreases a.len() - i,
    {
        if a[i] != b[i] {
            return false;
        }
        i = i + 1;
    }
    proof {
        assert(a@ =~= b@);
    }
    true
}

// ---------------------------------------------------------------------------
// `DTSTART` lines.
// ---------------------------------------------------------------------------

/// Reads the timestamp after the first `:` of a `DTSTART:...` line; a bad
/// timestamp's message is handed on unchanged.
pub fn parse_dt_strart_str(s: &str) -> (r: Result<PointTime, String>)
    ensures
        ({
            let kv = split_ch(s@, ':');
            match r {
                Ok(p) => kv.len() >= 2 && civil_str_fault(kv[1]) == 7 && p == civil_str_value(
                    kv[1],
                ),
                Err(e) => if kv.len() < 2 {
                    e@ == "invalid string"@
                } else {
                    civil_str_fault(kv[1]) != 7 && e@ == crate::point_time::civil_fault_msg(
                        civil_str_fault(kv[1]),
                    )
                },
            }
        }),
{
    let key_value = split_str(s, ':');
    if key_value.len() < 2 {
        return Err(<String as StringExecFns>::from_str("invalid string"));
    }
    proof {
        assert(key_value@[1]@ == split_ch(s@, ':')[1]);
    }
    crate::point_time::parse_point_time(key_value[1].as_str())
}

/// The parts of `s` cut at every `:` and `;`.
pub open spec fn split_colon_semi(s: Seq<char>) -> Seq<Seq<char>> {
    flatten_semi(split_ch(s, ':'))
}

pub open spec fn flatten_semi(parts: Seq<Seq<char>>) -> Seq<Seq<char>>
    decreases parts.len(),
{
    if parts.len() == 0 {
        Seq::empty()
    } else {
        split_ch(parts[0], ';') + flatten_semi(parts.drop_first())
    }
}

fn split_colon_semi_x(s: &str) -> (r: Vec<String>)
    ensures
        r.deep_view() == split_colon_semi(s@),
{
    let coarse = split_str(s, ':');
    let ghost all = split_ch(s@, ':');
    let mut out: Vec<String> = Vec::new();
    let mut i: usize = 0;
    proof {
        assert(all.skip(0) =~= all);
        assert(out.deep_view() + flatten_semi(all) =~= flatten_semi(all));
    }
    while i < coarse.len()
        invariant
            all == split_ch(s@, ':'),
            coarse.deep_view() == all,
            coarse.len() == all.len(),
            0 <= i <= coarse.len(),
            out.deep_view() + flatten_semi(all.skip(i as int)) == flatten_semi(all),
        decreases coarse.len() - i,
    {
        proof {
            assert(all.skip(i as int)[0] == all[i as int]);
            assert(coarse@[i as int]@ == coarse.deep_view()[i as int]);
            assert(all.skip(i as int).drop_first() =~= all.skip(i as int + 1));
        }
        let ghost before = out.deep_view();
        let mut sub = split_str(coarse[i].as_str(), ';');
        let ghost subv = sub.deep_view();
        out.append(&mut sub);
        proof {
            assert(out.deep_view() =~= before + subv);
            assert((before + subv) + flatten_semi(all.skip(i as int + 1)) =~= before + (subv
                + flatten_semi(all.skip(i as int + 1))));
        }
        i = i + 1;
    }
    proof {
        assert(all.skip(i as int) =~= Seq::<Seq<char>>::empty());
        assert(flatten_semi(Seq::<Seq<char>>::empty()) =~= Seq::<Seq<char>>::empty());
        assert(out.deep_view() + Seq::<Seq<char>>::empty() =~= out.deep_view());
    }
    out
}

/// Whether a `DTSTART[;TZID=zone]:timestamp` line is well formed, and what
/// it holds: the civil time and, when a `TZID` is given, the zone name.
pub open spec fn dt_start_line_spec(s: Seq<char>) -> Option<(PointTime, Option<Seq<char>>)> {
    let kv = split_colon_semi(s);
    if kv.len() == 2 {
        if civil_str_fault(kv[1]) == 7 {
            Some((civil_str_value(kv[1]), None))
        } else {
            None
        }
    } else if kv.len() >= 3 {
        let tzkv = split_ch(kv[1], '=');
        if tzkv.len() >= 2 && zone_name_ok(tzkv[1]) && civil_str_fault(kv[2]) == 7 {
            Some((civil_str_value(kv[2]), Some(tzkv[1])))
        } else {
            None
        }
    } else {
        None
    }
}

/// Reads a `DTSTART[;TZID=zone]:timestamp` line: the start civil time and
/// the zone name when one is given. Fails exactly when `dt_start_line_spec`
/// has nothing for it — a missing timestamp, a bad timestamp (whose message
/// is handed on unchanged), or an unknown zone.
pub fn parse_dt_strart_str_and_tz(s: &str) -> (r: Result<(PointTime, Option<String>), String>)
    ensures
        match r {
            Ok((p, tz)) => dt_start_line_spec(s@) == Some(
                (
                    p,
                    match tz {
                        Some(z) => Some(z@),
                        None => None::<Seq<char>>,
                    },
                ),
            ),
            Err(e) => dt_start_line_spec(s@) is None && ({
                let kv = split_colon_semi(s@);
                if kv.len() == 2 {
                    e@ == crate::point_time::civil_fault_msg(civil_str_fault(kv[1]))
                } else if kv.len() < 2 {
                    e@ == "invalid string"@
                } else if split_ch(kv[1], '=').len() < 2 || !zone_name_ok(
                    split_ch(kv[1], '=')[1],
                ) {
                    e@ == "invalid timezone"@
                } else {
                    e@ == crate::point_time::civil_fault_msg(civil_str_fault(kv[2]))
                }
            }),
        },
{
    let key_value = split_colon_semi_x(s);
    if key_value.len() == 2 {
        proof {
            assert(key_value@[1]@ == split_colon_semi(s@)[1]);
        }
        let point_time = match crate::point_time::parse_point_time(key_value[1].as_str()) {
            Ok(p) => p,
            Err(e) => {
                return Err(e);
            },
        };
        return Ok((point_time, None));
    }
    if key_value.len() < 2 {
        return Err(<String as StringExecFns>::from_str("invalid string"));
    }
    proof {
        assert(key_value@[1]@ == split_colon_semi(s@)[1]);
        assert(key_value@[2]@ == split_colon_semi(s@)[2]);
    }
    let tz_kv = split_str(key_value[1].as_str(), '=');
    if tz_kv.len() < 2 {
        return Err(<String as StringExecFns>::from_str("invalid timezone"));
    }
    proof {
        assert(tz_kv@[1]@ == split_ch(split_colon_semi(s@)[1], '=')[1]);
    }
    let tz_name: &str = tz_kv[1].as_str();
    if !tz_name_valid(tz_name) {
        return Err(<String as StringExecFns>::from_str("invalid timezone"));
    }
    let point_time = match crate::point_time::parse_point_time(key_value[2].as_str()) {
        Ok(p) => p,
        Err(e) => {
            return Err(e);
        },
    };
    Ok((point_time, Some(tz_name.to_owned())))
}

/// From `time`, the next day whose weekday is Tuesday, except that a `time`
/// already falling on `weekday` (or on a Tuesday) is returned as it is —
/// the behaviour callers rely on.
pub fn get_start_time_by_week(time: &PointTime, weekday: Weekday) -> (r: PointTime)
    requires
        pt_valid_date(*time),
        0 <= time.year <= 999_000,
    ensures
        time.date_of().wd() == weekday.num_spec() ==> r == *time,
        time.date_of().wd() != weekday.num_spec() ==> r == time.with_date(
            crate::civil::add_days_spec(
                time.date_of(),
                ((8 - time.date_of().wd()) % 7) as nat,
            ),
        ),
{
    let date = crate::civil::Date { year: time.year, month: time.month, day: time.day };
    let wd = crate::civil::weekday_x(date);
    let target = weekday.num();
    if wd == target {
        return PointTime {
            year: time.year,
            month: time.month,
            day: time.day,
            hour: time.hour,
            min: time.min,
            sec: time.sec,
        };
    }
    let delta = (8 - wd) % 7;
    let moved = crate::civil::add_days(date, delta as u64);
    PointTime {
        year: moved.year,
        month: moved.month,
        day: moved.day,
        hour: time.hour,
        min: time.min,
        sec: time.sec,
    }
}

} // verus!
