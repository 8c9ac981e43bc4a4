//! The recurrence expansion engine: a rule set, its frequency-dispatched
//! expanders, and the calendrical helpers they share.
use vstd::prelude::*;
use vstd::multiset::Multiset;
use crate::text::split_ch;
use crate::text::split_str;
use vstd::string::StringExecFns;

use crate::civil::add_days;
use crate::civil::add_days_spec;
use crate::civil::date_eq;
use crate::civil::date_le;
use crate::civil::date_lt;
use crate::civil::day_number;
use crate::civil::day_number_x;
use crate::civil::days_before_month;
use crate::civil::days_before_year;
use crate::civil::days_in_month;
use crate::civil::days_in_month_x;
use crate::civil::days_in_year;
use crate::civil::days_in_year_x;
use crate::civil::iso_week_of;
use crate::civil::iso_week_x;
use crate::civil::iso_weeks_in_year;
use crate::civil::iso_weeks_in_year_x;
use crate::civil::lemma_dby_0;
use crate::civil::lemma_dby_mono;
use crate::civil::lemma_dbm_nonneg;
use crate::civil::lemma_dn_in_year;
use crate::civil::lemma_dn_inj;
use crate::civil::lemma_dn_mono;
use crate::civil::lemma_prev_date;
use crate::civil::next_date;
use crate::civil::prev_date;
use crate::civil::prev_date_spec;
use crate::civil::next_date_spec;
use crate::civil::ordinal_of;
use crate::civil::ordinal_to_date;
use crate::civil::ordinal_to_date_spec;
use crate::civil::ordinal_x;
use crate::civil::week1_monday;
use crate::civil::week1_monday_dn;
use crate::civil::weekday_num;
use crate::civil::weekday_x;
use crate::civil::Date;
use crate::point_time::hms_le;
use crate::point_time::hms_le_x;
use crate::point_time::pt_le;
use crate::point_time::pt_le_x;
use crate::point_time::pt_lt;
use crate::point_time::pt_lt_x;
use crate::point_time::pt_valid_date;
use crate::point_time::PointTime;
use crate::rrule::weekday::NWeekday;
use crate::rrule::weekday::Weekday;
use crate::rrule::Frequency;
use crate::rrule::RRule;
use crate::rrule::RRuleView;
use crate::zone::tz_name_valid;
use crate::zone::zone_name_ok;
use crate::zone::zoned_unix_millis;

verus! {

// ---------------------------------------------------------------------------
// The helpers' mathematical statements.
// ---------------------------------------------------------------------------

/// The day (of the month `(y, m)`) that the ordinal `n` names: the `n`-th
/// from the front when positive, from the back when negative (`-1` is the
/// last day), none when `n` is 0 or reaches outside the month.
pub open spec fn nth_day_of_month_spec(y: int, m: int, n: int) -> Option<int> {
    if n > 0 {
        if n <= days_in_month(y, m) {
            Some(n)
        } else {
            None
        }
    } else if n < 0 {
        if days_in_month(y, m) + n + 1 >= 1 {
            Some(days_in_month(y, m) + n + 1)
        } else {
            None
        }
    } else {
        None
    }
}

/// The ordinal (within year `y`) that the signed year-day `n` names.
pub open spec fn nth_day_of_year_spec(y: int, n: int) -> Option<int> {
    if n > 0 {
        if n <= days_in_year(y) {
            Some(n)
        } else {
            None
        }
    } else if n < 0 {
        if days_in_year(y) + n + 1 >= 1 {
            Some(days_in_year(y) + n + 1)
        } else {
            None
        }
    } else {
        None
    }
}

/// The day number of the Monday beginning ISO week `w` of year `y`: counted
/// from week 1 when positive, back from the year's last ISO week when
/// negative, and only when that Monday does not fall before January 1.
pub open spec fn monday_of_iso_week_dn(y: int, w: int) -> Option<int> {
    if w > 0 {
        if w <= iso_weeks_in_year(y) {
            Some(week1_monday_dn(y) + 7 * (w - 1))
        } else {
            None
        }
    } else if w < 0 {
        let dn = week1_monday_dn(y) + 7 * (iso_weeks_in_year(y) + w);
        if dn >= day_number(y, 1, 1) {
            Some(dn)
        } else {
            None
        }
    } else {
        None
    }
}

/// Whether `d` is the day of its month that the ordinal `n` names.
pub open spec fn is_nth_dom_spec(d: Date, n: int) -> bool {
    nth_day_of_month_spec(d.year as int, d.month as int, n) == Some(d.day as int)
}

/// Whether `d` is the day of its year that the signed year-day `n` names.
pub open spec fn is_nth_doy_spec(d: Date, n: int) -> bool {
    nth_day_of_year_spec(d.year as int, n) == Some(
        ordinal_of(d.year as int, d.month as int, d.day as int),
    )
}

/// Whether `d` falls in ISO week `w`. A positive `w` compares the ISO week
/// number; a negative `w` names a week counted from the year's end, with one
/// special case: under `w == -1`, a January date whose ISO week belongs to
/// the previous year matches that year's last week.
pub open spec fn in_nth_weekno_spec(d: Date) -> spec_fn(int) -> bool {
    |w: int|
        {
            let iw = iso_week_of(d.year as int, d.month as int, d.day as int);
            if w == 0 {
                false
            } else if w > 0 {
                iw == w
            } else if w == -1 && iw > 51 && d.month == 1 {
                match monday_of_iso_week_dn(d.year - 1, -1) {
                    Some(mdn) => d.dn() >= mdn,
                    None => false,
                }
            } else {
                match monday_of_iso_week_dn(d.year as int, w) {
                    Some(mdn) => mdn <= d.dn() < mdn + 7,
                    None => false,
                }
            }
        }
}

/// The dates of weekday `w` (0 = Monday) in month `(y, m)`, ascending.
pub open spec fn weekdays_in_month_spec(y: int, m: int, w: int) -> Seq<Date> {
    let f = 1 + (w - weekday_num(y, m, 1) + 7) % 7;
    Seq::new(
        (((days_in_month(y, m) - f) / 7) + 1) as nat,
        |k: int| Date { year: y as i32, month: m as u32, day: (f + 7 * k) as u32 },
    )
}

/// The date of the `n`-th weekday `w` in month `(y, m)`: from the front when
/// `n` is positive, back from the last such weekday when negative.
pub open spec fn nth_weekday_of_month_spec(y: int, m: int, w: int, n: int) -> Option<Date> {
    let f = 1 + (w - weekday_num(y, m, 1) + 7) % 7;
    let last = f + 7 * ((days_in_month(y, m) - f) / 7);
    if n > 0 {
        if f + 7 * (n - 1) <= days_in_month(y, m) {
            Some(Date { year: y as i32, month: m as u32, day: (f + 7 * (n - 1)) as u32 })
        } else {
            None
        }
    } else if n < 0 {
        if last + 7 * (n + 1) >= 1 {
            Some(Date { year: y as i32, month: m as u32, day: (last + 7 * (n + 1)) as u32 })
        } else {
            None
        }
    } else {
        None
    }
}

/// A set of rules around one start time and zone, evaluated by [`Self::all`].
#[derive(Debug)]
pub struct RRuleSet {
    pub rrule: Vec<RRule>,
    pub tz: String,
    pub start_point_time: Option<PointTime>,
    pub max_until_time: PointTime,
    pub between_start: Option<PointTime>,
    pub between_end: Option<PointTime>,
}

// ---------------------------------------------------------------------------
// The executable helpers.
// ---------------------------------------------------------------------------

impl RRuleSet {
    /// The `ordinal`-th day of the month, counted from the back when
    /// negative.
    pub fn get_nth_day_of_month(year: i32, month: u32, ordinal: i16) -> (r: Option<Date>)
        requires
            0 <= year <= 1_000_000,
            1 <= month <= 12,
        ensures
            match r {
                Some(d) => nth_day_of_month_spec(year as int, month as int, ordinal as int)
                    == Some(d.day as int) && d.year == year && d.month == month && d.wf(),
                None => nth_day_of_month_spec(year as int, month as int, ordinal as int) is None,
            },
    {
        let dim = days_in_month_x(year, month);
        if ordinal > 0 {
            if ordinal as u32 <= dim {
                Some(Date { year, month, day: ordinal as u32 })
            } else {
                None
            }
        } else if ordinal < 0 {
            if dim as i32 + ordinal as i32 + 1 >= 1 {
                Some(Date { year, month, day: (dim as i32 + ordinal as i32 + 1) as u32 })
            } else {
                None
            }
        } else {
            None
        }
    }

    /// The last day of the month.
    pub fn get_last_day_of_month(year: i32, month: u32) -> (r: Date)
        requires
            0 <= year <= 1_000_000,
            1 <= month <= 12,
        ensures
            r.year == year && r.month == month,
            r.day == days_in_month(year as int, month as int),
            r.wf(),
    {
        Date { year, month, day: days_in_month_x(year, month) }
    }

    /// The last day of the year.
    pub fn get_last_day_of_year(year: i32) -> (r: Date)
        requires
            0 <= year <= 1_000_000,
        ensures
            r == (Date { year, month: 12, day: 31 }),
            r.wf(),
    {
        Date { year, month: 12, day: 31 }
    }

    /// The `ordinal`-th day of the year, counted back from December 31 when
    /// negative.
    pub fn get_nth_day_of_year(year: i32, ordinal: i16) -> (r: Option<Date>)
        requires
            0 <= year <= 1_000_000,
        ensures
            match r {
                Some(d) => nth_day_of_year_spec(year as int, ordinal as int) == Some(
                    ordinal_of(year as int, d.month as int, d.day as int),
                ) && d == ordinal_to_date_spec(
                    year as int,
                    nth_day_of_year_spec(year as int, ordinal as int).unwrap(),
                ) && d.year == year && d.wf(),
                None => nth_day_of_year_spec(year as int, ordinal as int) is None,
            },
    {
        let diy = days_in_year_x(year);
        let ord: u32 = if ordinal > 0 {
            if ordinal as u32 <= diy {
                ordinal as u32
            } else {
                return None;
            }
        } else if ordinal < 0 {
            if diy as i32 + ordinal as i32 + 1 >= 1 {
                (diy as i32 + ordinal as i32 + 1) as u32
            } else {
                return None;
            }
        } else {
            return None;
        };
        Some(ordinal_to_date(year, ord))
    }

    /// The Monday beginning the ISO week that `week_no` names in year
    /// `year`, counted back from the year's last ISO week when negative.
    pub fn get_nth_week_by_week_no(year: i32, week_no: i8) -> (r: Option<Date>)
        requires
            0 <= year <= 998_000,
        ensures
            match r {
                Some(d) => monday_of_iso_week_dn(year as int, week_no as int) == Some(d.dn())
                    && d.wf(),
                None => monday_of_iso_week_dn(year as int, week_no as int) is None,
            },
    {
        let wk1 = week1_monday(year);
        let wiy = iso_weeks_in_year_x(year);
        if week_no > 0 {
            if week_no as u32 <= wiy {
                Some(add_days(wk1, 7 * (week_no as u64 - 1)))
            } else {
                None
            }
        } else if week_no < 0 {
            let idx: i64 = wiy as i64 + week_no as i64;
            if idx < 0 {
                proof {
                    lemma_dbm_nonneg(year as int, 1);
                    lemma_dn_in_year(year as int, 1, 4);
                }
                return None;
            }
            let cand = add_days(wk1, 7 * (idx as u64));
            let jan1 = Date { year, month: 1, day: 1 };
            let cand_dn = day_number_x(cand);
            let jan1_dn = day_number_x(jan1);
            if cand_dn >= jan1_dn {
                Some(cand)
            } else {
                None
            }
        } else {
            None
        }
    }

    /// The date `weekday.num()` days after `date` — the weekday within the
    /// week when `date` is a Monday.
    pub fn get_next_weekday_by_time(date: &Date, weekday: &Weekday) -> (r: Date)
        requires
            date.wf(),
            date.year + 8 <= 1_000_000,
        ensures
            r.wf(),
            r.dn() == date.dn() + weekday.num_spec(),
    {
        add_days(*date, weekday.num() as u64)
    }

    /// The seven weekdays, Monday first.
    pub fn get_all_weekday() -> (r: Vec<Weekday>)
        ensures
            r@ == seq![
                Weekday::Mon,
                Weekday::Tue,
                Weekday::Wed,
                Weekday::Thu,
                Weekday::Fri,
                Weekday::Sat,
                Weekday::Sun,
            ],
    {
        let mut v: Vec<Weekday> = Vec::new();
        v.push(Weekday::Mon);
        v.push(Weekday::Tue);
        v.push(Weekday::Wed);
        v.push(Weekday::Thu);
        v.push(Weekday::Fri);
        v.push(Weekday::Sat);
        v.push(Weekday::Sun);
        proof {
            assert(v@ =~= seq![
                Weekday::Mon,
                Weekday::Tue,
                Weekday::Wed,
                Weekday::Thu,
                Weekday::Fri,
                Weekday::Sat,
                Weekday::Sun,
            ]);
        }
        v
    }

    /// Every date of the given weekday within the month, ascending.
    pub fn get_all_weekday_of_month(year: i32, month: u32, weekday: &Weekday) -> (r: Vec<Date>)
        requires
            0 <= year <= 1_000_000,
            1 <= month <= 12,
        ensures
            r@ == weekdays_in_month_spec(year as int, month as int, weekday.num_spec()),
            forall|j: int| 0 <= j < r.len() ==> (#[trigger] r@[j]).wf(),
    {
        let first = Date { year, month, day: 1 };
        let w1 = weekday_x(first);
        let w = weekday.num();
        let f: u32 = 1 + (w + 7 - w1) % 7;
        let dim = days_in_month_x(year, month);
        let ghost target = weekdays_in_month_spec(year as int, month as int, weekday.num_spec());
        proof {
            assert((w + 7 - w1) % 7 == (weekday.num_spec() - weekday_num(year as int, month as int, 1)
                + 7) % 7);
        }
        let mut v: Vec<Date> = Vec::new();
        let mut day: u32 = f;
        while day <= dim
            invariant
                0 <= year <= 1_000_000,
                1 <= month <= 12,
                dim == days_in_month(year as int, month as int),
                target == weekdays_in_month_spec(year as int, month as int, weekday.num_spec()),
                1 <= f <= 7,
                day >= f,
                (day - f) % 7 == 0,
                f == 1 + (weekday.num_spec() - weekday_num(year as int, month as int, 1) + 7) % 7,
                v@.len() == (day - f) / 7,
                v@.len() <= target.len(),
                forall|j: int| 0 <= j < v.len() ==> v@[j] == target[j],
            decreases dim + 7 - day,
        {
            proof {
                assert(target.len() == ((days_in_month(year as int, month as int) - f) / 7) + 1);
                assert((day - f) / 7 < target.len()) by {
                    assert(day <= days_in_month(year as int, month as int));
                    assert((day - f) / 7 <= (days_in_month(year as int, month as int) - f) / 7) by {
                        vstd::arithmetic::div_mod::lemma_div_is_ordered(
                            day - f,
                            days_in_month(year as int, month as int) - f,
                            7,
                        );
                    };
                };
                assert(target[((day - f) / 7) as int].day == f + 7 * ((day - f) / 7));
                assert(7 * ((day - f) / 7) == day - f) by {
                    vstd::arithmetic::div_mod::lemma_fundamental_div_mod_converse(
                        day - f,
                        7,
                        (day - f) / 7,
                        0,
                    );
                };
            }
            v.push(Date { year, month, day });
            day = day + 7;
            proof {
                assert((day - f) % 7 == 0) by {
                    vstd::arithmetic::div_mod::lemma_mod_add_multiples_vanish(0, 7);
                };
            }
        }
        proof {
            assert(v@.len() == target.len()) by {
                assert(day > dim && day <= dim + 7);
                assert((day - f) / 7 == (dim - f) / 7 + 1) by {
                    vstd::arithmetic::div_mod::lemma_fundamental_div_mod_converse(
                        day - f,
                        7,
                        ((day - f) / 7) as int,
                        0,
                    );
                    vstd::arithmetic::div_mod::lemma_div_is_ordered(dim - f + 1, day - f, 7);
                    vstd::arithmetic::div_mod::lemma_div_is_ordered(day - f, dim - f + 7, 7);
                    assert((dim - f + 1) / 7 >= ((dim - f) / 7)) by {
                        vstd::arithmetic::div_mod::lemma_div_is_ordered(dim - f, dim - f + 1, 7);
                    };
                };
            };
            assert(v@ =~= target);
            assert forall|j: int| 0 <= j < v.len() implies (#[trigger] v@[j]).wf() by {
                assert(v@[j].day == f + 7 * j);
                assert(f + 7 * j <= dim) by {
                    assert(j <= (dim - f) / 7);
                    assert(7 * j <= 7 * ((dim - f) / 7)) by (nonlinear_arith)
                        requires j <= (dim - f) / 7;
                    vstd::arithmetic::div_mod::lemma_fundamental_div_mod(dim - f, 7);
                };
            };
        }
        v
    }
}

// ---------------------------------------------------------------------------
// The day-level filters shared by the daily and weekly expanders.
// ---------------------------------------------------------------------------

pub open spec fn byday_has_wd(by_day: Seq<NWeekday>, wd: int) -> bool {
    exists|i: int| 0 <= i < by_day.len() && (#[trigger] by_day[i]).weekday_of().num_spec() == wd
}

pub open spec fn some_nth_dom(list: Seq<int>, d: Date) -> bool {
    exists|i: int| 0 <= i < list.len() && is_nth_dom_spec(d, #[trigger] list[i])
}

pub open spec fn some_nth_doy(list: Seq<int>, d: Date) -> bool {
    exists|i: int| 0 <= i < list.len() && is_nth_doy_spec(d, #[trigger] list[i])
}

pub open spec fn some_weekno(list: Seq<int>, d: Date) -> bool {
    exists|i: int| 0 <= i < list.len() && in_nth_weekno_spec(d)(#[trigger] list[i])
}

/// The daily filter: a date passes every BY* list that is set.
pub open spec fn daily_ok(rule: RRuleView, d: Date) -> bool {
    &&& (rule.by_day.len() == 0 || byday_has_wd(rule.by_day, d.wd()))
    &&& (rule.by_month.len() == 0 || rule.by_month.contains(d.month as int))
    &&& (rule.by_month_day.len() == 0 || some_nth_dom(rule.by_month_day, d))
    &&& (rule.by_year_day.len() == 0 || some_nth_doy(rule.by_year_day, d))
    &&& (rule.by_week_no.len() == 0 || some_weekno(rule.by_week_no, d))
}

/// The weekly filter: as the daily one, except that an empty `BYDAY`
/// defaults to the start date's weekday.
pub open spec fn weekly_ok(rule: RRuleView, start_wd: int, d: Date) -> bool {
    &&& (if rule.by_day.len() == 0 {
        d.wd() == start_wd
    } else {
        byday_has_wd(rule.by_day, d.wd())
    })
    &&& (rule.by_month.len() == 0 || rule.by_month.contains(d.month as int))
    &&& (rule.by_month_day.len() == 0 || some_nth_dom(rule.by_month_day, d))
    &&& (rule.by_year_day.len() == 0 || some_nth_doy(rule.by_year_day, d))
    &&& (rule.by_week_no.len() == 0 || some_weekno(rule.by_week_no, d))
}

impl RRuleSet {
    /// Whether `time` is the day of its month that `day` names.
    pub fn is_nth_day_of_month(time: &Date, day: i16) -> (r: bool)
        requires
            time.wf(),
        ensures
            r == is_nth_dom_spec(*time, day as int),
    {
        let dim = days_in_month_x(time.year, time.month);
        if day > 0 {
            time.day as i32 == day as i32
        } else if day < 0 {
            dim as i32 + day as i32 + 1 >= 1 && time.day as i32 == dim as i32 + day as i32 + 1
        } else {
            false
        }
    }

    /// Whether `time` is the day of its year that `day` names.
    pub fn is_nth_day_of_year(time: &Date, day: i16) -> (r: bool)
        requires
            time.wf(),
        ensures
            r == is_nth_doy_spec(*time, day as int),
    {
        let diy = days_in_year_x(time.year);
        let ord = ordinal_x(*time);
        if day > 0 {
            day as u32 <= diy && ord as i64 == day as i64
        } else if day < 0 {
            diy as i64 + day as i64 + 1 >= 1 && ord as i64 == diy as i64 + day as i64 + 1
        } else {
            false
        }
    }

    /// Whether `time` falls in the ISO week that `week_no` names, with the
    /// turn-of-year case that `in_nth_weekno_spec` describes.
    pub fn is_in_nth_weekno(time: &Date, week_no: i8) -> (r: bool)
        requires
            time.wf(),
            0 <= time.year <= 998_000,
        ensures
            r == in_nth_weekno_spec(*time)(week_no as int),
    {
        if week_no == 0 {
            return false;
        }
        let iw = iso_week_x(*time);
        if week_no > 0 {
            return iw as i64 == week_no as i64;
        }
        let dn = day_number_x(*time) as i64;
        if week_no == -1 && iw > 51 && time.month == 1 {
            let base = Date { year: time.year - 1, month: 1, day: 4 };
            let wk1 = day_number_x(base) as i64 - weekday_x(base) as i64;
            let wiy = iso_weeks_in_year_x(time.year - 1) as i64;
            let mdn = wk1 + 7 * (wiy - 1);
            let jan1 = Date { year: time.year - 1, month: 1, day: 1 };
            let jan1_dn = day_number_x(jan1) as i64;
            if mdn >= jan1_dn {
                return dn >= mdn;
            }
            return false;
        }
        let base = Date { year: time.year, month: 1, day: 4 };
        let wk1 = day_number_x(base) as i64 - weekday_x(base) as i64;
        let wiy = iso_weeks_in_year_x(time.year) as i64;
        let mdn = wk1 + 7 * (wiy + week_no as i64);
        let jan1 = Date { year: time.year, month: 1, day: 1 };
        let jan1_dn = day_number_x(jan1) as i64;
        if mdn >= jan1_dn {
            return mdn <= dn && dn < mdn + 7;
        }
        false
    }
}

/// Whether some `BYDAY` entry names this weekday.
fn byday_contains_wd(by_day: &Vec<NWeekday>, wd: u32) -> (r: bool)
    ensures
        r == byday_has_wd(by_day@, wd as int),
{
    let mut i: usize = 0;
    while i < by_day.len()
        invariant
            0 <= i <= by_day.len(),
            forall|j: int| 0 <= j < i ==> (#[trigger] by_day@[j]).weekday_of().num_spec() != wd,
        decreases by_day.len() - i,
    {
        if by_day[i].get_weekday().num() == wd {
            return true;
        }
        i = i + 1;
    }
    false
}

fn bymonth_contains(by_month: &Vec<u8>, m: u32) -> (r: bool)
    ensures
        r == by_month@.map_values(|x: u8| x as int).contains(m as int),
{
    let mut i: usize = 0;
    while i < by_month.len()
        invariant
            0 <= i <= by_month.len(),
            forall|j: int| 0 <= j < i ==> (#[trigger] by_month@[j]) as int != m,
        decreases by_month.len() - i,
    {
        if by_month[i] as u32 == m {
            proof {
                assert(by_month@.map_values(|x: u8| x as int)[i as int] == m);
            }
            return true;
        }
        i = i + 1;
    }
    false
}

fn any_nth_dom(list: &Vec<i16>, d: &Date) -> (r: bool)
    requires
        d.wf(),
    ensures
        r == some_nth_dom(list@.map_values(|x: i16| x as int), *d),
{
    let ghost m = list@.map_values(|x: i16| x as int);
    let mut i: usize = 0;
    while i < list.len()
        invariant
            m == list@.map_values(|x: i16| x as int),
            d.wf(),
            0 <= i <= list.len(),
            forall|j: int| 0 <= j < i ==> !is_nth_dom_spec(*d, #[trigger] m[j]),
        decreases list.len() - i,
    {
        if RRuleSet::is_nth_day_of_month(d, list[i]) {
            proof {
                assert(m[i as int] == list@[i as int] as int);
            }
            return true;
        }
        i = i + 1;
    }
    false
}

fn any_nth_doy(list: &Vec<i16>, d: &Date) -> (r: bool)
    requires
        d.wf(),
    ensures
        r == some_nth_doy(list@.map_values(|x: i16| x as int), *d),
{
    let ghost m = list@.map_values(|x: i16| x as int);
    let mut i: usize = 0;
    while i < list.len()
        invariant
            m == list@.map_values(|x: i16| x as int),
            d.wf(),
            0 <= i <= list.len(),
            forall|j: int| 0 <= j < i ==> !is_nth_doy_spec(*d, #[trigger] m[j]),
        decreases list.len() - i,
    {
        if RRuleSet::is_nth_day_of_year(d, list[i]) {
            proof {
                assert(m[i as int] == list@[i as int] as int);
            }
            return true;
        }
        i = i + 1;
    }
    false
}

fn any_weekno(list: &Vec<i8>, d: &Date) -> (r: bool)
    requires
        d.wf(),
        0 <= d.year <= 998_000,
    ensures
        r == some_weekno(list@.map_values(|x: i8| x as int), *d),
{
    let ghost m = list@.map_values(|x: i8| x as int);
    let mut i: usize = 0;
    while i < list.len()
        invariant
            m == list@.map_values(|x: i8| x as int),
            d.wf(),
            0 <= d.year <= 998_000,
            0 <= i <= list.len(),
            forall|j: int| 0 <= j < i ==> !in_nth_weekno_spec(*d)(#[trigger] m[j]),
        decreases list.len() - i,
    {
        if RRuleSet::is_in_nth_weekno(d, list[i]) {
            proof {
                assert(m[i as int] == list@[i as int] as int);
            }
            return true;
        }
        i = i + 1;
    }
    false
}

/// The daily filter, decided.
fn daily_accept(rule: &RRule, d: &Date) -> (r: bool)
    requires
        d.wf(),
        0 <= d.year <= 998_000,
    ensures
        r == daily_ok(rule@, *d),
{
    let wd = weekday_x(*d);
    if rule.by_day.len() > 0 && !byday_contains_wd(&rule.by_day, wd) {
        return false;
    }
    if rule.by_month.len() > 0 && !bymonth_contains(&rule.by_month, d.month) {
        return false;
    }
    if rule.by_month_day.len() > 0 && !any_nth_dom(&rule.by_month_day, d) {
        return false;
    }
    if rule.by_year_day.len() > 0 && !any_nth_doy(&rule.by_year_day, d) {
        return false;
    }
    if rule.by_week_no.len() > 0 && !any_weekno(&rule.by_week_no, d) {
        return false;
    }
    true
}

// ---------------------------------------------------------------------------
// Per-period candidate construction, shared by the monthly and yearly
// expanders: each stage either seeds the candidate list or narrows it.
// ---------------------------------------------------------------------------

/// The ordering the candidate lists are sorted by.
pub open spec fn date_leq() -> spec_fn(Date, Date) -> bool {
    |a: Date, b: Date| a.le(b)
}

pub proof fn lemma_date_le_total()
    ensures
        vstd::relations::total_ordering(date_leq()),
{
    let leq = date_leq();
    assert forall|a: Date, b: Date| #[trigger] leq(a, b) && #[trigger] leq(b, a) implies a == b by {
        assert(a.le(b) && b.le(a));
    };
    assert forall|a: Date, b: Date, c: Date| #[trigger] leq(a, b) && #[trigger] leq(b, c)
        implies leq(a, c) by {
        assert(a.le(b) && b.le(c));
    };
    assert forall|a: Date, b: Date| #[trigger] leq(a, b) || #[trigger] leq(b, a) by {
        assert(a.le(b) || b.le(a));
    };
}

pub open spec fn in_range(d: Date, lo: Date, hi: Date) -> bool {
    lo.le(d) && d.le(hi)
}

fn in_range_x(d: &Date, lo: &Date, hi: &Date) -> (r: bool)
    ensures
        r == in_range(*d, *lo, *hi),
{
    date_le(lo, d) && date_le(d, hi)
}

/// The dates of the year days in `list`, resolved against year `y` and kept
/// when inside `[lo, hi]`.
pub open spec fn year_day_dates(list: Seq<int>, y: int, lo: Date, hi: Date) -> Seq<Date>
    decreases list.len(),
{
    if list.len() == 0 {
        Seq::empty()
    } else {
        let rest = year_day_dates(list.drop_first(), y, lo, hi);
        match nth_day_of_year_spec(y, list[0]) {
            Some(ord) => {
                let d = ordinal_to_date_spec(y, ord);
                if in_range(d, lo, hi) {
                    seq![d] + rest
                } else {
                    rest
                }
            },
            None => rest,
        }
    }
}

fn year_day_dates_x(list: &Vec<i16>, y: i32, lo: &Date, hi: &Date) -> (r: Vec<Date>)
    requires
        0 <= y <= 10_000,
    ensures
        r@ == year_day_dates(list@.map_values(|x: i16| x as int), y as int, *lo, *hi),
        forall|j: int| 0 <= j < r.len() ==> (#[trigger] r@[j]).wf() && r@[j].year == y,
{
    let ghost m = list@.map_values(|x: i16| x as int);
    let mut out: Vec<Date> = Vec::new();
    let mut i: usize = 0;
    proof {
        assert(m.skip(0) =~= m);
        assert(out@ + year_day_dates(m, y as int, *lo, *hi) =~= year_day_dates(
            m,
            y as int,
            *lo,
            *hi,
        ));
    }
    while i < list.len()
        invariant
            m == list@.map_values(|x: i16| x as int),
            0 <= y <= 10_000,
            0 <= i <= list.len(),
            list.len() == m.len(),
            out@ + year_day_dates(m.skip(i as int), y as int, *lo, *hi) == year_day_dates(
                m,
                y as int,
                *lo,
                *hi,
            ),
            forall|j: int| 0 <= j < out.len() ==> (#[trigger] out@[j]).wf() && out@[j].year == y,
        decreases list.len() - i,
    {
        proof {
            assert(m.skip(i as int)[0] == m[i as int]);
            assert(m[i as int] == list@[i as int] as int);
            assert(m.skip(i as int).drop_first() =~= m.skip(i as int + 1));
        }
        let ghost old_out = out@;
        match RRuleSet::get_nth_day_of_year(y, list[i]) {
            Some(d) => {
                if in_range_x(&d, lo, hi) {
                    out.push(d);
                    proof {
                        let rest = year_day_dates(m.skip(i as int + 1), y as int, *lo, *hi);
                        assert(old_out + (seq![d] + rest) =~= (old_out + seq![d]) + rest);
                        assert(out@ =~= old_out + seq![d]);
                    }
                }
            },
            None => {},
        }
        i = i + 1;
    }
    proof {
        assert(m.skip(i as int) =~= Seq::<int>::empty());
        assert(out@ + Seq::<Date>::empty() =~= out@);
    }
    out
}

/// The dates of the month days in `list`, resolved against month `(y, m)`
/// and kept when inside `[lo, hi]`.
pub open spec fn month_day_dates(list: Seq<int>, y: int, mo: int, lo: Date, hi: Date) -> Seq<Date>
    decreases list.len(),
{
    if list.len() == 0 {
        Seq::empty()
    } else {
        let rest = month_day_dates(list.drop_first(), y, mo, lo, hi);
        match nth_day_of_month_spec(y, mo, list[0]) {
            Some(day) => {
                let d = Date { year: y as i32, month: mo as u32, day: day as u32 };
                if in_range(d, lo, hi) {
                    seq![d] + rest
                } else {
                    rest
                }
            },
            None => rest,
        }
    }
}

fn month_day_dates_x(list: &Vec<i16>, y: i32, mo: u32, lo: &Date, hi: &Date) -> (r: Vec<Date>)
    requires
        0 <= y <= 10_000,
        1 <= mo <= 12,
    ensures
        r@ == month_day_dates(list@.map_values(|x: i16| x as int), y as int, mo as int, *lo, *hi),
        forall|j: int| 0 <= j < r.len() ==> (#[trigger] r@[j]).wf(),
{
    let ghost m = list@.map_values(|x: i16| x as int);
    let mut out: Vec<Date> = Vec::new();
    let mut i: usize = 0;
    proof {
        assert(m.skip(0) =~= m);
        assert(out@ + month_day_dates(m, y as int, mo as int, *lo, *hi) =~= month_day_dates(
            m,
            y as int,
            mo as int,
            *lo,
            *hi,
        ));
    }
    while i < list.len()
        invariant
            m == list@.map_values(|x: i16| x as int),
            0 <= y <= 10_000,
            1 <= mo <= 12,
            0 <= i <= list.len(),
            list.len() == m.len(),
            out@ + month_day_dates(m.skip(i as int), y as int, mo as int, *lo, *hi)
                == month_day_dates(m, y as int, mo as int, *lo, *hi),
            forall|j: int| 0 <= j < out.len() ==> (#[trigger] out@[j]).wf(),
        decreases list.len() - i,
    {
        proof {
            assert(m.skip(i as int)[0] == m[i as int]);
            assert(m[i as int] == list@[i as int] as int);
            assert(m.skip(i as int).drop_first() =~= m.skip(i as int + 1));
        }
        let ghost old_out = out@;
        match RRuleSet::get_nth_day_of_month(y, mo, list[i]) {
            Some(d) => {
                if in_range_x(&d, lo, hi) {
                    out.push(d);
                    proof {
                        let rest = month_day_dates(
                            m.skip(i as int + 1),
                            y as int,
                            mo as int,
                            *lo,
                            *hi,
                        );
                        assert(old_out + (seq![d] + rest) =~= (old_out + seq![d]) + rest);
                        assert(out@ =~= old_out + seq![d]);
                    }
                }
            },
            None => {},
        }
        i = i + 1;
    }
    proof {
        assert(m.skip(i as int) =~= Seq::<int>::empty());
        assert(out@ + Seq::<Date>::empty() =~= out@);
    }
    out
}

/// `a` narrowed to the dates that `b` also holds, in `a`'s order.
pub open spec fn intersect_dates(a: Seq<Date>, b: Seq<Date>) -> Seq<Date>
    decreases a.len(),
{
    if a.len() == 0 {
        Seq::empty()
    } else {
        let rest = intersect_dates(a.drop_first(), b);
        if b.contains(a[0]) {
            seq![a[0]] + rest
        } else {
            rest
        }
    }
}

pub proof fn lemma_intersect_elems(a: Seq<Date>, b: Seq<Date>)
    ensures
        forall|j: int|
            0 <= j < intersect_dates(a, b).len() ==> a.contains(
                #[trigger] intersect_dates(a, b)[j],
            ),
    decreases a.len(),
{
    if a.len() > 0 {
        lemma_intersect_elems(a.drop_first(), b);
        let s = intersect_dates(a, b);
        let rest = intersect_dates(a.drop_first(), b);
        assert forall|j: int| 0 <= j < s.len() implies a.contains(#[trigger] s[j]) by {
            let jr = if b.contains(a[0]) { j - 1 } else { j };
            if b.contains(a[0]) && j == 0 {
                assert(s[0] == a[0]);
                assert(a.contains(a[0]));
            } else {
                assert(s[j] == rest[jr]);
                assert(a.drop_first().contains(rest[jr]));
                let k = choose|k: int| 0 <= k < a.drop_first().len() && a.drop_first()[k] == rest[jr];
                assert(a[k + 1] == rest[jr]);
            }
        };
    }
}

fn contains_date(v: &Vec<Date>, d: &Date) -> (r: bool)
    ensures
        r == v@.contains(*d),
{
    let mut i: usize = 0;
    while i < v.len()
        invariant
            0 <= i <= v.len(),
            forall|j: int| 0 <= j < i ==> v@[j] != *d,
        decreases v.len() - i,
    {
        if date_eq(&v[i], d) {
            return true;
        }
        i = i + 1;
    }
    false
}

fn intersect_dates_x(a: &Vec<Date>, b: &Vec<Date>) -> (r: Vec<Date>)
    ensures
        r@ == intersect_dates(a@, b@),
        forall|j: int| 0 <= j < r.len() ==> a@.contains(#[trigger] r@[j]),
{
    let mut out: Vec<Date> = Vec::new();
    let mut i: usize = 0;
    proof {
        assert(a@.skip(0) =~= a@);
        assert(out@ + intersect_dates(a@, b@) =~= intersect_dates(a@, b@));
    }
    while i < a.len()
        invariant
            0 <= i <= a.len(),
            out@ + intersect_dates(a@.skip(i as int), b@) == intersect_dates(a@, b@),
            forall|j: int| 0 <= j < out.len() ==> a@.contains(#[trigger] out@[j]),
        decreases a.len() - i,
    {
        proof {
            assert(a@.skip(i as int)[0] == a@[i as int]);
            assert(a@.skip(i as int).drop_first() =~= a@.skip(i as int + 1));
        }
        let ghost old_out = out@;
        if contains_date(b, &a[i]) {
            let d = a[i];
            out.push(d);
            proof {
                let rest = intersect_dates(a@.skip(i as int + 1), b@);
                assert(old_out + (seq![d] + rest) =~= (old_out + seq![d]) + rest);
                assert(out@ =~= old_out + seq![d]);
            }
        }
        i = i + 1;
    }
    proof {
        assert(a@.skip(i as int) =~= Seq::<Seq<Date>>::empty().flatten());
        assert(a@.skip(i as int) =~= Seq::<Date>::empty());
        assert(out@ + Seq::<Date>::empty() =~= out@);
    }
    out
}

/// Sorts dates ascending; the result is the unique sorted arrangement of
/// the input.
fn sort_dates_x(v: Vec<Date>) -> (r: Vec<Date>)
    ensures
        r@ == v@.sort_by(date_leq()),
        r@.to_multiset() == v@.to_multiset(),
        r@.len() == v@.len(),
{
    proof {
        lemma_date_le_total();
        v@.lemma_sort_by_ensures(date_leq());
        broadcast use vstd::seq_lib::group_to_multiset_ensures;

    }
    let mut rem = v;
    let mut out: Vec<Date> = Vec::new();
    while rem.len() > 0
        invariant
            out@.to_multiset().add(rem@.to_multiset()) == v@.to_multiset(),
            vstd::relations::sorted_by(out@, date_leq()),
            forall|i: int, j: int|
                0 <= i < out@.len() && 0 <= j < rem@.len() ==> date_leq()(
                    #[trigger] out@[i],
                    #[trigger] rem@[j],
                ),
        decreases rem.len(),
    {
        proof {
            broadcast use vstd::seq_lib::group_to_multiset_ensures;

        }
        let mut best: usize = 0;
        let mut k: usize = 1;
        while k < rem.len()
            invariant
                0 <= best < rem@.len(),
                1 <= k <= rem@.len(),
                forall|j: int| 0 <= j < k ==> rem@[best as int].le(#[trigger] rem@[j]),
            decreases rem.len() - k,
        {
            if date_lt(&rem[k], &rem[best]) {
                best = k;
            }
            k = k + 1;
        }
        let ghost old_rem = rem@;
        let ghost old_out = out@;
        let d = rem.remove(best);
        out.push(d);
        proof {
            broadcast use vstd::seq_lib::group_to_multiset_ensures;

            assert(old_rem.remove(best as int) =~= rem@);
            assert(rem@.to_multiset() == old_rem.to_multiset().remove(d));
            assert(out@.to_multiset() == old_out.to_multiset().insert(d));
            assert(out@.to_multiset().add(rem@.to_multiset()) =~= v@.to_multiset());
            assert forall|i: int, j: int|
                0 <= i < out@.len() && 0 <= j < rem@.len() implies date_leq()(
                #[trigger] out@[i],
                #[trigger] rem@[j],
            ) by {
                assert(old_rem.to_multiset().contains(rem@[j]));
                if !old_rem.contains(rem@[j]) {
                    assert(false);
                }
                let jj = choose|jj: int| 0 <= jj < old_rem.len() && old_rem[jj] == rem@[j];
                assert(d.le(old_rem[jj]));
                if i < out@.len() - 1 {
                    assert(date_leq()(old_out[i], d));
                }
            };
            assert(vstd::relations::sorted_by(out@, date_leq())) by {
                assert forall|i: int, j: int| 0 <= i < j < out@.len() implies date_leq()(
                    out@[i],
                    out@[j],
                ) by {
                    if j < out@.len() - 1 {
                        assert(date_leq()(old_out[i], old_out[j]));
                    } else {
                        assert(old_rem.to_multiset().contains(d));
                    }
                };
            };
        }
    }
    proof {
        broadcast use vstd::seq_lib::group_to_multiset_ensures;

        assert(rem@ =~= Seq::<Date>::empty());
        assert(rem@.to_multiset() =~= Multiset::<Date>::empty());
        assert(out@.to_multiset() =~= v@.to_multiset());
        assert(out@.to_multiset().len() == out@.len());
        assert(v@.to_multiset().len() == v@.len());
        lemma_date_le_total();
        v@.lemma_sort_by_ensures(date_leq());
        vstd::seq_lib::lemma_sorted_unique(out@, v@.sort_by(date_leq()), date_leq());
    }
    out
}

/// The weekday with the given ISO number (0 = Monday).
pub open spec fn wd_from_num(k: int) -> Weekday {
    if k == 0 {
        Weekday::Mon
    } else if k == 1 {
        Weekday::Tue
    } else if k == 2 {
        Weekday::Wed
    } else if k == 3 {
        Weekday::Thu
    } else if k == 4 {
        Weekday::Fri
    } else if k == 5 {
        Weekday::Sat
    } else {
        Weekday::Sun
    }
}

/// The Monday beginning the ISO week that `w` names, as a date.
pub open spec fn monday_date_spec(y: int, w: int) -> Option<Date> {
    let jan4 = Date { year: y as i32, month: 1, day: 4 };
    let wk1 = crate::civil::sub_days_spec(jan4, weekday_num(y, 1, 4) as nat);
    match monday_of_iso_week_dn(y, w) {
        Some(dn) => Some(add_days_spec(wk1, (dn - week1_monday_dn(y)) as nat)),
        None => None,
    }
}

/// The Monday that `monday_date_spec` names is well formed and carries the
/// day number that `monday_of_iso_week_dn` gives.
pub proof fn lemma_monday_date(y: int, w: int)
    requires
        0 <= y <= 998_000,
        -128 <= w <= 127,
    ensures
        (monday_date_spec(y, w) is Some) == (monday_of_iso_week_dn(y, w) is Some),
        monday_date_spec(y, w) is Some ==> {
            &&& monday_date_spec(y, w).unwrap().wf()
            &&& monday_date_spec(y, w).unwrap().dn() == monday_of_iso_week_dn(y, w).unwrap()
            &&& 0 - 1 <= monday_date_spec(y, w).unwrap().year <= y + 3
        },
{
    let jan4 = Date { year: y as i32, month: 1, day: 4 };
    lemma_dbm_nonneg(y, 1);
    lemma_dby_0();
    lemma_dby_mono(0, y);
    assert(jan4.wf());
    assert(jan4.dn() >= 365 + 4);
    crate::civil::lemma_sub_days(jan4, weekday_num(y, 1, 4) as nat);
    let wk1 = crate::civil::sub_days_spec(jan4, weekday_num(y, 1, 4) as nat);
    assert(wk1.dn() == week1_monday_dn(y));
    if monday_of_iso_week_dn(y, w) is Some {
        let dn = monday_of_iso_week_dn(y, w).unwrap();
        assert(dn - week1_monday_dn(y) >= 0);
        assert(dn - week1_monday_dn(y) <= 7 * 127);
        crate::civil::lemma_add_days(wk1, (dn - week1_monday_dn(y)) as nat);
        let r = add_days_spec(wk1, (dn - week1_monday_dn(y)) as nat);
        assert(r.dn() <= days_before_year(y) + 4 + 889);
        assert(days_before_year(y + 3) == days_before_year(y + 2) + days_in_year(y + 2));
        assert(days_before_year(y + 2) == days_before_year(y + 1) + days_in_year(y + 1));
        assert(days_before_year(y + 1) == days_before_year(y) + days_in_year(y));
        lemma_year_cap(r, y + 3);
    }
}

/// One ISO week's dates: the Monday and the following six days.
pub open spec fn week_dates_from(mon: Date) -> Seq<Date> {
    Seq::new(7, |k: int| add_days_spec(mon, k as nat))
}

/// Whether the `BYDAY` list has an `Every` entry for this weekday.
pub open spec fn byday_has_every(by_day: Seq<NWeekday>, w: Weekday) -> bool {
    by_day.contains(NWeekday::Every(w))
}

/// The days of the ISO weeks in `list`, kept when inside `[lo, hi]`; when
/// `byday` is non-empty only its `Every` weekdays are taken from each week.
pub open spec fn weekno_dates(
    list: Seq<int>,
    byday: Seq<NWeekday>,
    y: int,
    lo: Date,
    hi: Date,
) -> Seq<Date>
    decreases list.len(),
{
    if list.len() == 0 {
        Seq::empty()
    } else {
        let rest = weekno_dates(list.drop_first(), byday, y, lo, hi);
        match monday_date_spec(y, list[0]) {
            Some(mon) => weekno_week(mon, byday, lo, hi, 0) + rest,
            None => rest,
        }
    }
}

/// The days `k..7` of the week starting at `mon`, filtered as above.
pub open spec fn weekno_week(mon: Date, byday: Seq<NWeekday>, lo: Date, hi: Date, k: int) -> Seq<
    Date,
>
    decreases 7 - k,
{
    if k >= 7 {
        Seq::empty()
    } else {
        let d = add_days_spec(mon, k as nat);
        let rest = weekno_week(mon, byday, lo, hi, k + 1);
        if (byday.len() == 0 || byday_has_every(byday, wd_from_num(k))) && in_range(d, lo, hi) {
            seq![d] + rest
        } else {
            rest
        }
    }
}

fn byday_every_contains(by_day: &Vec<NWeekday>, w: Weekday) -> (r: bool)
    ensures
        r == byday_has_every(by_day@, w),
{
    let mut i: usize = 0;
    while i < by_day.len()
        invariant
            0 <= i <= by_day.len(),
            forall|j: int| 0 <= j < i ==> by_day@[j] != NWeekday::Every(w),
        decreases by_day.len() - i,
    {
        if by_day[i] == NWeekday::Every(w) {
            return true;
        }
        i = i + 1;
    }
    false
}

fn wd_from_num_x(k: u32) -> (r: Weekday)
    requires
        k <= 6,
    ensures
        r == wd_from_num(k as int),
{
    if k == 0 {
        Weekday::Mon
    } else if k == 1 {
        Weekday::Tue
    } else if k == 2 {
        Weekday::Wed
    } else if k == 3 {
        Weekday::Thu
    } else if k == 4 {
        Weekday::Fri
    } else if k == 5 {
        Weekday::Sat
    } else {
        Weekday::Sun
    }
}

fn weekno_dates_x(list: &Vec<i8>, byday: &Vec<NWeekday>, y: i32, lo: &Date, hi: &Date) -> (r: Vec<
    Date,
>)
    requires
        0 <= y <= 10_000,
    ensures
        r@ == weekno_dates(list@.map_values(|x: i8| x as int), byday@, y as int, *lo, *hi),
        forall|j: int| 0 <= j < r.len() ==> (#[trigger] r@[j]).wf(),
{
    let ghost m = list@.map_values(|x: i8| x as int);
    let mut out: Vec<Date> = Vec::new();
    let mut i: usize = 0;
    proof {
        assert(m.skip(0) =~= m);
        assert(out@ + weekno_dates(m, byday@, y as int, *lo, *hi) =~= weekno_dates(
            m,
            byday@,
            y as int,
            *lo,
            *hi,
        ));
    }
    while i < list.len()
        invariant
            m == list@.map_values(|x: i8| x as int),
            0 <= y <= 10_000,
            0 <= i <= list.len(),
            list.len() == m.len(),
            out@ + weekno_dates(m.skip(i as int), byday@, y as int, *lo, *hi) == weekno_dates(
                m,
                byday@,
                y as int,
                *lo,
                *hi,
            ),
            forall|j: int| 0 <= j < out.len() ==> (#[trigger] out@[j]).wf(),
        decreases list.len() - i,
    {
        proof {
            assert(m.skip(i as int)[0] == m[i as int]);
            assert(m[i as int] == list@[i as int] as int);
            assert(m.skip(i as int).drop_first() =~= m.skip(i as int + 1));
            lemma_monday_date(y as int, list@[i as int] as int);
        }
        match RRuleSet::get_nth_week_by_week_no(y, list[i]) {
            Some(mon) => {
                proof {
                    let smon = monday_date_spec(y as int, m[i as int]).unwrap();
                    lemma_dn_inj(mon, smon);
                }
                let ghost smon = monday_date_spec(y as int, m[i as int]).unwrap();
                let mut k: u32 = 0;
                proof {
                    crate::civil::lemma_add_days(mon, 7);
                }
                while k < 7
                    invariant
                        mon.wf(),
                        mon.year <= 10_004,
                        0 <= k <= 7,
                        out@ + weekno_week(mon, byday@, *lo, *hi, k as int) + weekno_dates(
                            m.skip(i as int + 1),
                            byday@,
                            y as int,
                            *lo,
                            *hi,
                        ) == weekno_dates(m, byday@, y as int, *lo, *hi),
                        forall|j: int| 0 <= j < out.len() ==> (#[trigger] out@[j]).wf(),
                    decreases 7 - k,
                {
                    let d = add_days(mon, k as u64);
                    let ghost old_out = out@;
                    let keep = if byday.len() == 0 {
                        true
                    } else {
                        byday_every_contains(byday, wd_from_num_x(k))
                    };
                    if keep && in_range_x(&d, lo, hi) {
                        out.push(d);
                        proof {
                            let rest = weekno_week(mon, byday@, *lo, *hi, k as int + 1);
                            let tail = weekno_dates(m.skip(i as int + 1), byday@, y as int, *lo, *hi);
                            assert(weekno_week(mon, byday@, *lo, *hi, k as int) == seq![d] + rest);
                            assert(out@ =~= old_out + seq![d]);
                            assert((old_out + seq![d]) + rest =~= old_out + (seq![d] + rest));
                        }
                    }
                    k = k + 1;
                }
                proof {
                    assert(weekno_week(mon, byday@, *lo, *hi, 7) =~= Seq::<Date>::empty());
                    assert(out@ + Seq::<Date>::empty() =~= out@);
                }
            },
            None => {},
        }
        i = i + 1;
    }
    proof {
        assert(m.skip(i as int) =~= Seq::<int>::empty());
        assert(out@ + Seq::<Date>::empty() =~= out@);
    }
    out
}

/// Keeps the dates inside `[lo, hi]`.
pub open spec fn filter_range(s: Seq<Date>, lo: Date, hi: Date) -> Seq<Date>
    decreases s.len(),
{
    if s.len() == 0 {
        Seq::empty()
    } else {
        let rest = filter_range(s.drop_first(), lo, hi);
        if in_range(s[0], lo, hi) {
            seq![s[0]] + rest
        } else {
            rest
        }
    }
}

fn filter_range_x(v: &Vec<Date>, lo: &Date, hi: &Date) -> (r: Vec<Date>)
    ensures
        r@ == filter_range(v@, *lo, *hi),
        forall|j: int| 0 <= j < r.len() ==> v@.contains(#[trigger] r@[j]),
{
    let mut out: Vec<Date> = Vec::new();
    let mut i: usize = 0;
    proof {
        assert(v@.skip(0) =~= v@);
        assert(out@ + filter_range(v@, *lo, *hi) =~= filter_range(v@, *lo, *hi));
    }
    while i < v.len()
        invariant
            0 <= i <= v.len(),
            out@ + filter_range(v@.skip(i as int), *lo, *hi) == filter_range(v@, *lo, *hi),
            forall|j: int| 0 <= j < out.len() ==> v@.contains(#[trigger] out@[j]),
        decreases v.len() - i,
    {
        proof {
            assert(v@.skip(i as int)[0] == v@[i as int]);
            assert(v@.skip(i as int).drop_first() =~= v@.skip(i as int + 1));
        }
        let ghost old_out = out@;
        if in_range_x(&v[i], lo, hi) {
            let d = v[i];
            out.push(d);
            proof {
                let rest = filter_range(v@.skip(i as int + 1), *lo, *hi);
                assert(out@ =~= old_out + seq![d]);
                assert((old_out + seq![d]) + rest =~= old_out + (seq![d] + rest));
            }
        }
        i = i + 1;
    }
    proof {
        assert(v@.skip(i as int) =~= Seq::<Date>::empty());
        assert(out@ + Seq::<Date>::empty() =~= out@);
    }
    out
}

/// The `BYDAY` dates within one month: every such weekday for an `Every`
/// entry, the n-th for an `Nth` one, all kept when inside `[lo, hi]`.
pub open spec fn byday_month_dates(
    by_day: Seq<NWeekday>,
    y: int,
    mo: int,
    lo: Date,
    hi: Date,
) -> Seq<Date>
    decreases by_day.len(),
{
    if by_day.len() == 0 {
        Seq::empty()
    } else {
        let rest = byday_month_dates(by_day.drop_first(), y, mo, lo, hi);
        let cur = match by_day[0] {
            NWeekday::Every(w) => filter_range(
                weekdays_in_month_spec(y, mo, w.num_spec()),
                lo,
                hi,
            ),
            NWeekday::Nth(n, w) => match nth_weekday_of_month_spec(y, mo, w.num_spec(), n as int) {
                Some(d) => if in_range(d, lo, hi) {
                    seq![d]
                } else {
                    Seq::empty()
                },
                None => Seq::empty(),
            },
        };
        cur + rest
    }
}

impl RRuleSet {
    /// The `n`-th date of the given weekday within the month, counted back
    /// from the last such weekday when `n` is negative.
    pub fn get_nth_weekday_of_month(year: i32, month: u32, weekday: &Weekday, n: i16) -> (r:
        Option<Date>)
        requires
            0 <= year <= 1_000_000,
            1 <= month <= 12,
        ensures
            r == nth_weekday_of_month_spec(year as int, month as int, weekday.num_spec(), n as int),
            r is Some ==> r.unwrap().wf(),
    {
        let first = Date { year, month, day: 1 };
        let w1 = weekday_x(first);
        let w = weekday.num();
        let f: u32 = 1 + (w + 7 - w1) % 7;
        let dim = days_in_month_x(year, month);
        proof {
            assert((w + 7 - w1) % 7 == (weekday.num_spec() - weekday_num(
                year as int,
                month as int,
                1,
            ) + 7) % 7);
        }
        let last: u32 = f + 7 * ((dim - f) / 7);
        proof {
            vstd::arithmetic::div_mod::lemma_fundamental_div_mod(dim as int - f as int, 7);
            assert(last <= dim);
        }
        if n > 0 {
            let day: i64 = f as i64 + 7 * (n as i64 - 1);
            if day <= dim as i64 {
                Some(Date { year, month, day: day as u32 })
            } else {
                None
            }
        } else if n < 0 {
            let day: i64 = last as i64 + 7 * (n as i64 + 1);
            if day >= 1 {
                Some(Date { year, month, day: day as u32 })
            } else {
                None
            }
        } else {
            None
        }
    }
}

fn byday_month_dates_x(by_day: &Vec<NWeekday>, y: i32, mo: u32, lo: &Date, hi: &Date) -> (r: Vec<
    Date,
>)
    requires
        0 <= y <= 10_000,
        1 <= mo <= 12,
    ensures
        r@ == byday_month_dates(by_day@, y as int, mo as int, *lo, *hi),
        forall|j: int| 0 <= j < r.len() ==> (#[trigger] r@[j]).wf(),
{
    let mut out: Vec<Date> = Vec::new();
    let mut i: usize = 0;
    proof {
        assert(by_day@.skip(0) =~= by_day@);
        assert(out@ + byday_month_dates(by_day@, y as int, mo as int, *lo, *hi)
            =~= byday_month_dates(by_day@, y as int, mo as int, *lo, *hi));
    }
    while i < by_day.len()
        invariant
            0 <= y <= 10_000,
            1 <= mo <= 12,
            0 <= i <= by_day.len(),
            out@ + byday_month_dates(by_day@.skip(i as int), y as int, mo as int, *lo, *hi)
                == byday_month_dates(by_day@, y as int, mo as int, *lo, *hi),
            forall|j: int| 0 <= j < out.len() ==> (#[trigger] out@[j]).wf(),
        decreases by_day.len() - i,
    {
        proof {
            assert(by_day@.skip(i as int)[0] == by_day@[i as int]);
            assert(by_day@.skip(i as int).drop_first() =~= by_day@.skip(i as int + 1));
        }
        let ghost old_out = out@;
        let ghost cur_spec = match by_day@[i as int] {
            NWeekday::Every(w) => filter_range(
                weekdays_in_month_spec(y as int, mo as int, w.num_spec()),
                *lo,
                *hi,
            ),
            NWeekday::Nth(n, w) => match nth_weekday_of_month_spec(
                y as int,
                mo as int,
                w.num_spec(),
                n as int,
            ) {
                Some(d) => if in_range(d, *lo, *hi) {
                    seq![d]
                } else {
                    Seq::<Date>::empty()
                },
                None => Seq::<Date>::empty(),
            },
        };
        match &by_day[i] {
            NWeekday::Every(w) => {
                let alldays = RRuleSet::get_all_weekday_of_month(y, mo, w);
                let mut filtered = filter_range_x(&alldays, lo, hi);
                proof {
                    assert(filtered@ == cur_spec);
                    assert forall|j: int| 0 <= j < filtered.len() implies (
                    #[trigger] filtered@[j]).wf() by {
                        assert(alldays@.contains(filtered@[j]));
                    };
                }
                let ghost fv = filtered@;
                out.append(&mut filtered);
                proof {
                    assert(out@ =~= old_out + fv);
                }
            },
            NWeekday::Nth(n, w) => {
                match RRuleSet::get_nth_weekday_of_month(y, mo, w, *n) {
                    Some(d) => {
                        if in_range_x(&d, lo, hi) {
                            out.push(d);
                            proof {
                                assert(out@ =~= old_out + seq![d]);
                            }
                        } else {
                            proof {
                                assert(out@ =~= old_out + cur_spec);
                            }
                        }
                    },
                    None => {
                        proof {
                            assert(out@ =~= old_out + cur_spec);
                        }
                    },
                }
            },
        }
        proof {
            let rest = byday_month_dates(by_day@.skip(i as int + 1), y as int, mo as int, *lo, *hi);
            assert(out@ + rest =~= old_out + (cur_spec + rest));
        }
        i = i + 1;
    }
    proof {
        assert(by_day@.skip(i as int) =~= Seq::<NWeekday>::empty());
        assert(out@ + Seq::<Date>::empty() =~= out@);
    }
    out
}

/// One month's candidates before sorting: each non-empty BY* list either
/// seeds the set or narrows it, and a stage that finds nothing ends the
/// month with nothing.
pub open spec fn month_dates_raw(rule: RRuleView, y: int, mo: int, lo: Date, hi: Date) -> Seq<
    Date,
> {
    if rule.by_month.len() > 0 && !rule.by_month.contains(mo) {
        Seq::empty()
    } else {
        let yd = year_day_dates(rule.by_year_day, y, lo, hi);
        if rule.by_year_day.len() > 0 && yd.len() == 0 {
            Seq::empty()
        } else {
            let l1: Seq<Date> = if rule.by_year_day.len() > 0 {
                yd
            } else {
                Seq::empty()
            };
            let md = month_day_dates(rule.by_month_day, y, mo, lo, hi);
            if rule.by_month_day.len() > 0 && md.len() == 0 {
                Seq::empty()
            } else {
                let l2 = if rule.by_month_day.len() == 0 {
                    l1
                } else if l1.len() > 0 {
                    intersect_dates(l1, md)
                } else {
                    md
                };
                if rule.by_month_day.len() > 0 && l2.len() == 0 {
                    Seq::empty()
                } else {
                    let wk = weekno_dates(rule.by_week_no, Seq::empty(), y, lo, hi);
                    let l3 = if rule.by_week_no.len() == 0 {
                        l2
                    } else if l2.len() > 0 {
                        intersect_dates(l2, wk)
                    } else {
                        wk
                    };
                    if rule.by_week_no.len() > 0 && l3.len() == 0 {
                        Seq::empty()
                    } else {
                        let bd = byday_month_dates(rule.by_day, y, mo, lo, hi);
                        let l4 = if rule.by_day.len() == 0 {
                            l3
                        } else if l3.len() > 0 {
                            intersect_dates(l3, bd)
                        } else {
                            bd
                        };
                        if rule.by_day.len() > 0 && l4.len() == 0 {
                            Seq::empty()
                        } else {
                            l4
                        }
                    }
                }
            }
        }
    }
}

/// One month's candidates, ascending.
pub open spec fn month_dates(rule: RRuleView, y: int, mo: int, lo: Date, hi: Date) -> Seq<Date> {
    month_dates_raw(rule, y, mo, lo, hi).sort_by(date_leq())
}

/// One month's candidates, computed.
fn month_dates_x(rule: &RRule, y: i32, mo: u32, lo: &Date, hi: &Date) -> (r: Vec<Date>)
    requires
        0 <= y <= 10_000,
        1 <= mo <= 12,
    ensures
        r@ == month_dates(rule@, y as int, mo as int, *lo, *hi),
{
    let ghost rv = rule@;
    let raw: Vec<Date>;
    if rule.by_month.len() > 0 && !bymonth_contains(&rule.by_month, mo) {
        raw = Vec::new();
        proof {
            assert(raw@ =~= month_dates_raw(rv, y as int, mo as int, *lo, *hi));
        }
    } else {
        let yd = year_day_dates_x(&rule.by_year_day, y, lo, hi);
        if rule.by_year_day.len() > 0 && yd.len() == 0 {
            raw = Vec::new();
            proof {
                assert(raw@ =~= month_dates_raw(rv, y as int, mo as int, *lo, *hi));
            }
        } else {
            let l1: Vec<Date> = if rule.by_year_day.len() > 0 {
                yd
            } else {
                Vec::new()
            };
            proof {
                if rule.by_year_day.len() == 0 {
                    assert(l1@ =~= Seq::<Date>::empty());
                }
            }
            let md = month_day_dates_x(&rule.by_month_day, y, mo, lo, hi);
            if rule.by_month_day.len() > 0 && md.len() == 0 {
                raw = Vec::new();
                proof {
                    assert(raw@ =~= month_dates_raw(rv, y as int, mo as int, *lo, *hi));
                }
            } else {
                let l2: Vec<Date> = if rule.by_month_day.len() == 0 {
                    l1
                } else if l1.len() > 0 {
                    intersect_dates_x(&l1, &md)
                } else {
                    md
                };
                if rule.by_month_day.len() > 0 && l2.len() == 0 {
                    raw = Vec::new();
                    proof {
                        assert(raw@ =~= month_dates_raw(rv, y as int, mo as int, *lo, *hi));
                    }
                } else {
                    let empty_byday: Vec<NWeekday> = Vec::new();
                    proof {
                        assert(empty_byday@ =~= Seq::<NWeekday>::empty());
                    }
                    let wk = weekno_dates_x(&rule.by_week_no, &empty_byday, y, lo, hi);
                    let l3: Vec<Date> = if rule.by_week_no.len() == 0 {
                        l2
                    } else if l2.len() > 0 {
                        intersect_dates_x(&l2, &wk)
                    } else {
                        wk
                    };
                    if rule.by_week_no.len() > 0 && l3.len() == 0 {
                        raw = Vec::new();
                        proof {
                            assert(raw@ =~= month_dates_raw(rv, y as int, mo as int, *lo, *hi));
                        }
                    } else {
                        let bd = byday_month_dates_x(&rule.by_day, y, mo, lo, hi);
                        let l4: Vec<Date> = if rule.by_day.len() == 0 {
                            l3
                        } else if l3.len() > 0 {
                            intersect_dates_x(&l3, &bd)
                        } else {
                            bd
                        };
                        if rule.by_day.len() > 0 && l4.len() == 0 {
                            raw = Vec::new();
                            proof {
                                assert(raw@ =~= month_dates_raw(rv, y as int, mo as int, *lo, *hi));
                            }
                        } else {
                            raw = l4;
                        }
                    }
                }
            }
        }
    }
    sort_dates_x(raw)
}

/// The month index `year * 12 + month - 1`, the stride the monthly walkers
/// move on.
pub open spec fn ym_index(y: int, mo: int) -> int {
    y * 12 + mo - 1
}

/// Month addition lands `k` (or, skipping a short month, `k + 1`) months
/// later, keeps the day and the time of day, and never yields an invalid
/// date.
pub proof fn lemma_add_month_spec(p: PointTime, k: int)
    requires
        pt_valid_date(p),
        0 <= k <= 4_294_967_295,
        0 <= p.year <= 100_000,
    ensures
        ({
            let r = crate::point_time::add_month_spec(p, k);
            &&& pt_valid_date(r)
            &&& r.day == p.day && r.hour == p.hour && r.min == p.min && r.sec == p.sec
            &&& ym_index(r.year as int, r.month as int) == ym_index(p.year as int, p.month as int)
                + k || ym_index(r.year as int, r.month as int) == ym_index(
                p.year as int,
                p.month as int,
            ) + k + 1
            &&& r.year as int <= p.year + k / 12 + 2
        }),
{
    let t = p.month - 1 + k;
    vstd::arithmetic::div_mod::lemma_fundamental_div_mod(t as int, 12);
    assert(t >= 0);
    vstd::arithmetic::div_mod::lemma_div_pos_is_pos(t as int, 12);
    let ty = p.year + t / 12;
    let tm = t % 12 + 1;
    assert(ty * 12 == p.year * 12 + (t / 12) * 12) by (nonlinear_arith)
        requires ty == p.year + t / 12;
    assert(t / 12 <= k / 12 + 1) by {
        assert(t <= k + 11);
        vstd::arithmetic::div_mod::lemma_div_is_ordered(t as int, k + 11, 12);
        assert((k + 11) / 12 <= k / 12 + 1) by {
            vstd::arithmetic::div_mod::lemma_fundamental_div_mod(k, 12);
            vstd::arithmetic::div_mod::lemma_fundamental_div_mod(k + 11, 12);
            let q1 = k / 12;
            let q2 = (k + 11) / 12;
            assert(12 * q2 + (k + 11) % 12 == 12 * q1 + k % 12 + 11);
            if q2 > q1 + 1 {
                assert(12 * q2 >= 12 * (q1 + 2)) by (nonlinear_arith)
                    requires q2 >= q1 + 2;
                assert(false);
            }
        };
    };
    if p.day <= days_in_month(ty, tm) {
    } else {
        assert(p.day <= 31);
        assert(days_in_month(ty, tm) < 31);
        assert(tm == 2 || tm == 4 || tm == 6 || tm == 9 || tm == 11);
        assert(days_in_month(ty, tm + 1) == 31);
    }
}

/// The simple monthly walk: from `cur`, step `step` months (sliding off
/// short months) while not past `end`.
pub open spec fn monthly_simple(cur: PointTime, end: PointTime, step: nat) -> Seq<PointTime>
    decreases
            (if ym_index(cur.year as int, cur.month as int) <= ym_index(
                end.year as int,
                end.month as int,
            ) {
                ym_index(end.year as int, end.month as int) + 1 - ym_index(
                    cur.year as int,
                    cur.month as int,
                )
            } else {
                0
            })
    via monthly_simple_dec
{
    if step == 0 || step > 4_294_967_295 || !pt_valid_date(cur) || !pt_le(cur, end) || cur.year < 0
        || cur.year > 100_000 {
        Seq::empty()
    } else {
        seq![cur] + monthly_simple(crate::point_time::add_month_spec(cur, step as int), end, step)
    }
}

#[via_fn]
proof fn monthly_simple_dec(cur: PointTime, end: PointTime, step: nat) {
    if 0 < step <= 4_294_967_295 && pt_valid_date(cur) && pt_le(cur, end) && 0 <= cur.year
        <= 100_000 {
        lemma_add_month_spec(cur, step as int);
    }
}

/// The compound monthly walk: every `step`-th month whose first day lies
/// before the end date contributes its sorted candidates.
pub open spec fn monthly_compound(
    rule: RRuleView,
    ym: int,
    start_date: Date,
    end_date: Date,
    step: nat,
) -> Seq<Date>
    decreases
            (if ym <= ym_index(end_date.year as int, end_date.month as int) {
                ym_index(end_date.year as int, end_date.month as int) + 1 - ym
            } else {
                0
            })
    via monthly_compound_dec
{
    let y = ym / 12;
    let mo = ym % 12 + 1;
    let first = Date { year: y as i32, month: mo as u32, day: 1 };
    if step == 0 || ym < 0 || ym > 120_000 || !first.lt(end_date) {
        Seq::empty()
    } else {
        let last = Date { year: y as i32, month: mo as u32, day: days_in_month(y, mo) as u32 };
        let lo = if first.lt(start_date) {
            start_date
        } else {
            first
        };
        let hi = if end_date.lt(last) {
            end_date
        } else {
            last
        };
        month_dates(rule, y, mo, lo, hi) + monthly_compound(
            rule,
            ym + step,
            start_date,
            end_date,
            step,
        )
    }
}

#[via_fn]
proof fn monthly_compound_dec(
    rule: RRuleView,
    ym: int,
    start_date: Date,
    end_date: Date,
    step: nat,
) {
    let y = ym / 12;
    let mo = ym % 12 + 1;
    let first = Date { year: y as i32, month: mo as u32, day: 1 };
    if step > 0 && 0 <= ym <= 120_000 && first.lt(end_date) {
        vstd::arithmetic::div_mod::lemma_fundamental_div_mod(ym, 12);
        assert(y * 12 == ym - ym % 12) by (nonlinear_arith)
            requires y == ym / 12;
    }
}

/// The date of the `n`-th weekday `w` within year `y`, counted back from
/// the last such weekday when `n` is negative, as an ordinal resolution.
pub open spec fn nth_weekday_of_year_spec(y: int, w: int, n: int) -> Option<Date> {
    let f = 1 + (w - weekday_num(y, 1, 1) + 7) % 7;
    let last = f + 7 * ((days_in_year(y) - f) / 7);
    if n > 0 {
        if f + 7 * (n - 1) <= days_in_year(y) {
            Some(ordinal_to_date_spec(y, f + 7 * (n - 1)))
        } else {
            None
        }
    } else if n < 0 {
        if last + 7 * (n + 1) >= 1 {
            Some(ordinal_to_date_spec(y, last + 7 * (n + 1)))
        } else {
            None
        }
    } else {
        None
    }
}

/// The dates `(y, m, day)` for the months in `months`, kept when the month
/// has that day and the date lies in `[lo, hi]` — the yearly walk without
/// day-level selectors.
pub open spec fn plain_month_dates(months: Seq<int>, y: int, day: int, lo: Date, hi: Date) -> Seq<
    Date,
>
    decreases months.len(),
{
    if months.len() == 0 {
        Seq::empty()
    } else {
        let rest = plain_month_dates(months.drop_first(), y, day, lo, hi);
        let m = months[0];
        if 1 <= m <= 12 && 1 <= day <= days_in_month(y, m) {
            let d = Date { year: y as i32, month: m as u32, day: day as u32 };
            if in_range(d, lo, hi) {
                seq![d] + rest
            } else {
                rest
            }
        } else {
            rest
        }
    }
}

/// The month days of `list` resolved against every permitted month of the
/// year, kept when inside `[lo, hi]`.
pub open spec fn year_month_day_dates(
    list: Seq<int>,
    by_month: Seq<int>,
    y: int,
    lo: Date,
    hi: Date,
) -> Seq<Date>
    decreases list.len(),
{
    if list.len() == 0 {
        Seq::empty()
    } else {
        ymd_months(list[0], by_month, y, 1, lo, hi) + year_month_day_dates(
            list.drop_first(),
            by_month,
            y,
            lo,
            hi,
        )
    }
}

pub open spec fn ymd_months(n: int, by_month: Seq<int>, y: int, mo: int, lo: Date, hi: Date) -> Seq<
    Date,
>
    decreases 13 - mo,
{
    if mo > 12 {
        Seq::empty()
    } else {
        let rest = ymd_months(n, by_month, y, mo + 1, lo, hi);
        if by_month.len() == 0 || by_month.contains(mo) {
            match nth_day_of_month_spec(y, mo, n) {
                Some(day) => {
                    let d = Date { year: y as i32, month: mo as u32, day: day as u32 };
                    if in_range(d, lo, hi) {
                        seq![d] + rest
                    } else {
                        rest
                    }
                },
                None => rest,
            }
        } else {
            rest
        }
    }
}

/// Keeps the dates whose month the `BYMONTH` list names.
pub open spec fn filter_by_month(s: Seq<Date>, by_month: Seq<int>) -> Seq<Date>
    decreases s.len(),
{
    if s.len() == 0 {
        Seq::empty()
    } else {
        let rest = filter_by_month(s.drop_first(), by_month);
        if by_month.contains(s[0].month as int) {
            seq![s[0]] + rest
        } else {
            rest
        }
    }
}

/// Whether some `Every` entry of the `BYDAY` list names this weekday number.
pub open spec fn every_has_wd(by_day: Seq<NWeekday>, wd: int) -> bool {
    exists|i: int|
        0 <= i < by_day.len() && (#[trigger] by_day[i]) is Every
            && by_day[i].weekday_of().num_spec() == wd
}

pub open spec fn has_every(by_day: Seq<NWeekday>) -> bool {
    exists|i: int| 0 <= i < by_day.len() && (#[trigger] by_day[i]) is Every
}

pub open spec fn has_nth(by_day: Seq<NWeekday>) -> bool {
    exists|i: int| 0 <= i < by_day.len() && (#[trigger] by_day[i]) is Nth
}

/// Keeps the dates whose weekday some `Every` entry names.
pub open spec fn filter_every_wd(s: Seq<Date>, by_day: Seq<NWeekday>) -> Seq<Date>
    decreases s.len(),
{
    if s.len() == 0 {
        Seq::empty()
    } else {
        let rest = filter_every_wd(s.drop_first(), by_day);
        if every_has_wd(by_day, s[0].wd()) {
            seq![s[0]] + rest
        } else {
            rest
        }
    }
}

/// The dates of weekday `w` in ISO weeks `week..=52` of year `y`, kept when
/// inside `[lo, hi]`.
pub open spec fn iso_week_wd_dates(y: int, w: int, week: int, lo: Date, hi: Date) -> Seq<Date>
    decreases 53 - week,
{
    if week > 52 {
        Seq::empty()
    } else {
        let rest = iso_week_wd_dates(y, w, week + 1, lo, hi);
        match monday_date_spec(y, week) {
            Some(mon) => {
                let d = add_days_spec(mon, w as nat);
                if in_range(d, lo, hi) {
                    seq![d] + rest
                } else {
                    rest
                }
            },
            None => rest,
        }
    }
}

/// The dates of weekday `w` within the months `by_month` of year `y`, kept
/// when inside `[lo, hi]`.
pub open spec fn months_weekday_dates(
    by_month: Seq<int>,
    y: int,
    w: int,
    lo: Date,
    hi: Date,
) -> Seq<Date>
    decreases by_month.len(),
{
    if by_month.len() == 0 {
        Seq::empty()
    } else {
        let rest = months_weekday_dates(by_month.drop_first(), y, w, lo, hi);
        let m = by_month[0];
        if 1 <= m <= 12 {
            filter_range(weekdays_in_month_spec(y, m, w), lo, hi) + rest
        } else {
            rest
        }
    }
}

/// The n-th weekday dates within the months `by_month` of year `y`.
pub open spec fn months_nth_weekday_dates(
    by_month: Seq<int>,
    y: int,
    w: int,
    n: int,
    lo: Date,
    hi: Date,
) -> Seq<Date>
    decreases by_month.len(),
{
    if by_month.len() == 0 {
        Seq::empty()
    } else {
        let rest = months_nth_weekday_dates(by_month.drop_first(), y, w, n, lo, hi);
        let m = by_month[0];
        if 1 <= m <= 12 {
            match nth_weekday_of_month_spec(y, m, w, n) {
                Some(d) => if in_range(d, lo, hi) {
                    seq![d] + rest
                } else {
                    rest
                },
                None => rest,
            }
        } else {
            rest
        }
    }
}

/// The yearly `BYDAY` dates of the `Every` entries: over the whole year's
/// ISO weeks, or over the `BYMONTH` months when those are given.
pub open spec fn year_byday_every(
    by_day: Seq<NWeekday>,
    by_month: Seq<int>,
    y: int,
    lo: Date,
    hi: Date,
) -> Seq<Date>
    decreases by_day.len(),
{
    if by_day.len() == 0 {
        Seq::empty()
    } else {
        let rest = year_byday_every(by_day.drop_first(), by_month, y, lo, hi);
        match by_day[0] {
            NWeekday::Every(w) => if by_month.len() == 0 {
                iso_week_wd_dates(y, w.num_spec(), 1, lo, hi) + rest
            } else {
                months_weekday_dates(by_month, y, w.num_spec(), lo, hi) + rest
            },
            NWeekday::Nth(_, _) => rest,
        }
    }
}

/// The yearly `BYDAY` dates of the `Nth` entries: the n-th weekday of the
/// year, or of each `BYMONTH` month.
pub open spec fn year_byday_nth(
    by_day: Seq<NWeekday>,
    by_month: Seq<int>,
    y: int,
    lo: Date,
    hi: Date,
) -> Seq<Date>
    decreases by_day.len(),
{
    if by_day.len() == 0 {
        Seq::empty()
    } else {
        let rest = year_byday_nth(by_day.drop_first(), by_month, y, lo, hi);
        match by_day[0] {
            NWeekday::Nth(n, w) => if by_month.len() == 0 {
                match nth_weekday_of_year_spec(y, w.num_spec(), n as int) {
                    Some(d) => if in_range(d, lo, hi) {
                        seq![d] + rest
                    } else {
                        rest
                    },
                    None => rest,
                }
            } else {
                months_nth_weekday_dates(by_month, y, w.num_spec(), n as int, lo, hi) + rest
            },
            NWeekday::Every(_) => rest,
        }
    }
}

/// One year's candidates before sorting: the seed-or-narrow pipeline over
/// the year, with the mixed `Every`/`Nth` `BYDAY` case yielding nothing.
pub open spec fn year_dates_raw(
    rule: RRuleView,
    y: int,
    lo: Date,
    hi: Date,
    start: PointTime,
) -> Seq<Date> {
    if rule.by_year_day.len() == 0 && rule.by_month_day.len() == 0 && rule.by_week_no.len() == 0
        && rule.by_day.len() == 0 {
        let months: Seq<int> = if rule.by_month.len() == 0 {
            seq![start.month as int]
        } else {
            rule.by_month
        };
        plain_month_dates(months, y, start.day as int, lo, hi)
    } else {
        let yd = year_day_dates(rule.by_year_day, y, lo, hi);
        if rule.by_year_day.len() > 0 && yd.len() == 0 {
            Seq::empty()
        } else {
            let l1: Seq<Date> = if rule.by_year_day.len() > 0 {
                yd
            } else {
                Seq::empty()
            };
            let md = year_month_day_dates(rule.by_month_day, rule.by_month, y, lo, hi);
            if rule.by_month_day.len() > 0 && md.len() == 0 {
                Seq::empty()
            } else {
                let l2 = if rule.by_month_day.len() == 0 {
                    l1
                } else if l1.len() > 0 {
                    intersect_dates(l1, md)
                } else {
                    md
                };
                if rule.by_month_day.len() > 0 && l2.len() == 0 {
                    Seq::empty()
                } else {
                    let l2b = if rule.by_month.len() > 0 && l2.len() > 0 {
                        filter_by_month(l2, rule.by_month)
                    } else {
                        l2
                    };
                    if rule.by_month.len() > 0 && l2.len() > 0 && l2b.len() == 0 {
                        Seq::empty()
                    } else {
                        let wk = weekno_dates(rule.by_week_no, rule.by_day, y, lo, hi);
                        let l3 = if rule.by_week_no.len() == 0 {
                            l2b
                        } else if l2b.len() > 0 {
                            intersect_dates(l2b, wk)
                        } else {
                            wk
                        };
                        if rule.by_week_no.len() > 0 && l3.len() == 0 {
                            Seq::empty()
                        } else {
                            if rule.by_day.len() == 0 {
                                l3
                            } else if has_every(rule.by_day) && has_nth(rule.by_day) {
                                Seq::empty()
                            } else {
                                let l3b = if l3.len() > 0 && has_every(rule.by_day) {
                                    filter_every_wd(l3, rule.by_day)
                                } else {
                                    l3
                                };
                                if l3.len() > 0 && has_every(rule.by_day) && l3b.len() == 0 {
                                    Seq::empty()
                                } else {
                                    let bd = year_byday_nth(rule.by_day, rule.by_month, y, lo, hi)
                                        + year_byday_every(rule.by_day, rule.by_month, y, lo, hi);
                                    let l4 = if l3b.len() > 0 {
                                        intersect_dates(l3b, bd)
                                    } else {
                                        bd
                                    };
                                    if l4.len() == 0 {
                                        Seq::empty()
                                    } else {
                                        l4
                                    }
                                }
                            }
                        }
                    }
                }
            }
        }
    }
}

/// One year's candidates, ascending.
pub open spec fn year_dates(rule: RRuleView, y: int, lo: Date, hi: Date, start: PointTime) -> Seq<
    Date,
> {
    year_dates_raw(rule, y, lo, hi, start).sort_by(date_leq())
}

/// The yearly walk: every `step`-th year up to the end date's year
/// contributes its sorted candidates, each clipped to the year inside
/// `[start_date, end_date]`.
pub open spec fn yearly_years(
    rule: RRuleView,
    y: int,
    start_date: Date,
    end_date: Date,
    start: PointTime,
    step: nat,
) -> Seq<Date>
    decreases
            (if y <= end_date.year {
                end_date.year + 1 - y
            } else {
                0
            }),
{
    if step == 0 || y > end_date.year as int || y < 0 || y > 10_000 {
        Seq::empty()
    } else {
        let jan1 = Date { year: y as i32, month: 1, day: 1 };
        let dec31 = Date { year: y as i32, month: 12, day: 31 };
        let lo = if jan1.lt(start_date) {
            start_date
        } else {
            jan1
        };
        let hi = if end_date.lt(dec31) {
            end_date
        } else {
            dec31
        };
        year_dates(rule, y, lo, hi, start) + yearly_years(
            rule,
            y + step,
            start_date,
            end_date,
            start,
            step,
        )
    }
}

fn plain_month_dates_x(months: &Vec<u8>, y: i32, day: u32, lo: &Date, hi: &Date) -> (r: Vec<Date>)
    requires
        0 <= y <= 10_000,
    ensures
        r@ == plain_month_dates(months@.map_values(|x: u8| x as int), y as int, day as int, *lo, *hi),
{
    let ghost m = months@.map_values(|x: u8| x as int);
    let mut out: Vec<Date> = Vec::new();
    let mut i: usize = 0;
    proof {
        assert(m.skip(0) =~= m);
        assert(out@ + plain_month_dates(m, y as int, day as int, *lo, *hi) =~= plain_month_dates(
            m,
            y as int,
            day as int,
            *lo,
            *hi,
        ));
    }
    while i < months.len()
        invariant
            m == months@.map_values(|x: u8| x as int),
            0 <= y <= 10_000,
            0 <= i <= months.len(),
            months.len() == m.len(),
            out@ + plain_month_dates(m.skip(i as int), y as int, day as int, *lo, *hi)
                == plain_month_dates(m, y as int, day as int, *lo, *hi),
        decreases months.len() - i,
    {
        proof {
            assert(m.skip(i as int)[0] == m[i as int]);
            assert(m[i as int] == months@[i as int] as int);
            assert(m.skip(i as int).drop_first() =~= m.skip(i as int + 1));
        }
        let ghost old_out = out@;
        let mv = months[i];
        if 1 <= mv && mv <= 12 && 1 <= day && day <= days_in_month_x(y, mv as u32) {
            let d = Date { year: y, month: mv as u32, day };
            if in_range_x(&d, lo, hi) {
                out.push(d);
                proof {
                    let rest = plain_month_dates(
                        m.skip(i as int + 1),
                        y as int,
                        day as int,
                        *lo,
                        *hi,
                    );
                    assert(out@ =~= old_out + seq![d]);
                    assert((old_out + seq![d]) + rest =~= old_out + (seq![d] + rest));
                }
            }
        }
        i = i + 1;
    }
    proof {
        assert(m.skip(i as int) =~= Seq::<int>::empty());
        assert(out@ + Seq::<Date>::empty() =~= out@);
    }
    out
}

fn year_month_day_dates_x(list: &Vec<i16>, by_month: &Vec<u8>, y: i32, lo: &Date, hi: &Date) -> (r:
    Vec<Date>)
    requires
        0 <= y <= 10_000,
    ensures
        r@ == year_month_day_dates(
            list@.map_values(|x: i16| x as int),
            by_month@.map_values(|x: u8| x as int),
            y as int,
            *lo,
            *hi,
        ),
        forall|j: int| 0 <= j < r.len() ==> (#[trigger] r@[j]).wf(),
{
    let ghost m = list@.map_values(|x: i16| x as int);
    let ghost bm = by_month@.map_values(|x: u8| x as int);
    let mut out: Vec<Date> = Vec::new();
    let mut i: usize = 0;
    proof {
        assert(m.skip(0) =~= m);
        assert(out@ + year_month_day_dates(m, bm, y as int, *lo, *hi) =~= year_month_day_dates(
            m,
            bm,
            y as int,
            *lo,
            *hi,
        ));
    }
    while i < list.len()
        invariant
            m == list@.map_values(|x: i16| x as int),
            bm == by_month@.map_values(|x: u8| x as int),
            0 <= y <= 10_000,
            0 <= i <= list.len(),
            list.len() == m.len(),
            out@ + year_month_day_dates(m.skip(i as int), bm, y as int, *lo, *hi)
                == year_month_day_dates(m, bm, y as int, *lo, *hi),
            forall|j: int| 0 <= j < out.len() ==> (#[trigger] out@[j]).wf(),
        decreases list.len() - i,
    {
        proof {
            assert(m.skip(i as int)[0] == m[i as int]);
            assert(m[i as int] == list@[i as int] as int);
            assert(m.skip(i as int).drop_first() =~= m.skip(i as int + 1));
        }
        let n = list[i];
        let mut mo: u32 = 1;
        while mo <= 12
            invariant
                bm == by_month@.map_values(|x: u8| x as int),
                0 <= y <= 10_000,
                n as int == m[i as int],
                0 <= i < list.len() && list.len() == m.len(),
                1 <= mo <= 13,
                out@ + ymd_months(n as int, bm, y as int, mo as int, *lo, *hi)
                    + year_month_day_dates(m.skip(i as int + 1), bm, y as int, *lo, *hi)
                    == year_month_day_dates(m, bm, y as int, *lo, *hi),
                forall|j: int| 0 <= j < out.len() ==> (#[trigger] out@[j]).wf(),
            decreases 13 - mo,
        {
            let ghost old_out = out@;
            let ghost rest_m = ymd_months(n as int, bm, y as int, mo as int + 1, *lo, *hi);
            let ghost tail = year_month_day_dates(m.skip(i as int + 1), bm, y as int, *lo, *hi);
            if by_month.len() == 0 || bymonth_contains(by_month, mo) {
                match RRuleSet::get_nth_day_of_month(y, mo, n) {
                    Some(d) => {
                        if in_range_x(&d, lo, hi) {
                            out.push(d);
                            proof {
                                assert(out@ =~= old_out + seq![d]);
                                assert((old_out + seq![d]) + (rest_m + tail) =~= old_out + ((
                                seq![d] + rest_m) + tail));
                            }
                        }
                    },
                    None => {},
                }
            }
            mo = mo + 1;
        }
        proof {
            assert(ymd_months(n as int, bm, y as int, 13, *lo, *hi) =~= Seq::<Date>::empty());
            assert(out@ + Seq::<Date>::empty() + year_month_day_dates(
                m.skip(i as int + 1),
                bm,
                y as int,
                *lo,
                *hi,
            ) =~= out@ + year_month_day_dates(m.skip(i as int + 1), bm, y as int, *lo, *hi));
        }
        i = i + 1;
    }
    proof {
        assert(m.skip(i as int) =~= Seq::<int>::empty());
        assert(out@ + Seq::<Date>::empty() =~= out@);
    }
    out
}

fn filter_by_month_x(v: &Vec<Date>, by_month: &Vec<u8>) -> (r: Vec<Date>)
    ensures
        r@ == filter_by_month(v@, by_month@.map_values(|x: u8| x as int)),
        forall|j: int| 0 <= j < r.len() ==> v@.contains(#[trigger] r@[j]),
{
    let ghost bm = by_month@.map_values(|x: u8| x as int);
    let mut out: Vec<Date> = Vec::new();
    let mut i: usize = 0;
    proof {
        assert(v@.skip(0) =~= v@);
        assert(out@ + filter_by_month(v@, bm) =~= filter_by_month(v@, bm));
    }
    while i < v.len()
        invariant
            bm == by_month@.map_values(|x: u8| x as int),
            0 <= i <= v.len(),
            out@ + filter_by_month(v@.skip(i as int), bm) == filter_by_month(v@, bm),
            forall|j: int| 0 <= j < out.len() ==> v@.contains(#[trigger] out@[j]),
        decreases v.len() - i,
    {
        proof {
            assert(v@.skip(i as int)[0] == v@[i as int]);
            assert(v@.skip(i as int).drop_first() =~= v@.skip(i as int + 1));
        }
        let ghost old_out = out@;
        if bymonth_contains(by_month, v[i].month) {
            let d = v[i];
            out.push(d);
            proof {
                let rest = filter_by_month(v@.skip(i as int + 1), bm);
                assert(out@ =~= old_out + seq![d]);
                assert((old_out + seq![d]) + rest =~= old_out + (seq![d] + rest));
            }
        }
        i = i + 1;
    }
    proof {
        assert(v@.skip(i as int) =~= Seq::<Date>::empty());
        assert(out@ + Seq::<Date>::empty() =~= out@);
    }
    out
}

fn every_contains_wd(by_day: &Vec<NWeekday>, wd: u32) -> (r: bool)
    ensures
        r == every_has_wd(by_day@, wd as int),
{
    let mut i: usize = 0;
    while i < by_day.len()
        invariant
            0 <= i <= by_day.len(),
            forall|j: int|
                0 <= j < i ==> !((#[trigger] by_day@[j]) is Every
                    && by_day@[j].weekday_of().num_spec() == wd),
        decreases by_day.len() - i,
    {
        let every = by_day[i].is_every();
        if every && by_day[i].get_weekday().num() == wd {
            return true;
        }
        i = i + 1;
    }
    false
}

fn has_every_x(by_day: &Vec<NWeekday>) -> (r: bool)
    ensures
        r == has_every(by_day@),
{
    let mut i: usize = 0;
    while i < by_day.len()
        invariant
            0 <= i <= by_day.len(),
            forall|j: int| 0 <= j < i ==> !((#[trigger] by_day@[j]) is Every),
        decreases by_day.len() - i,
    {
        if by_day[i].is_every() {
            return true;
        }
        i = i + 1;
    }
    false
}

fn has_nth_x(by_day: &Vec<NWeekday>) -> (r: bool)
    ensures
        r == has_nth(by_day@),
{
    let mut i: usize = 0;
    while i < by_day.len()
        invariant
            0 <= i <= by_day.len(),
            forall|j: int| 0 <= j < i ==> !((#[trigger] by_day@[j]) is Nth),
        decreases by_day.len() - i,
    {
        if !by_day[i].is_every() {
            return true;
        }
        i = i + 1;
    }
    false
}

fn filter_every_wd_x(v: &Vec<Date>, by_day: &Vec<NWeekday>) -> (r: Vec<Date>)
    requires
        forall|j: int| 0 <= j < v.len() ==> (#[trigger] v@[j]).wf(),
    ensures
        r@ == filter_every_wd(v@, by_day@),
{
    let mut out: Vec<Date> = Vec::new();
    let mut i: usize = 0;
    proof {
        assert(v@.skip(0) =~= v@);
        assert(out@ + filter_every_wd(v@, by_day@) =~= filter_every_wd(v@, by_day@));
    }
    while i < v.len()
        invariant
            forall|j: int| 0 <= j < v.len() ==> (#[trigger] v@[j]).wf(),
            0 <= i <= v.len(),
            out@ + filter_every_wd(v@.skip(i as int), by_day@) == filter_every_wd(v@, by_day@),
        decreases v.len() - i,
    {
        proof {
            assert(v@.skip(i as int)[0] == v@[i as int]);
            assert(v@.skip(i as int).drop_first() =~= v@.skip(i as int + 1));
        }
        let ghost old_out = out@;
        let wd = weekday_x(v[i]);
        if every_contains_wd(by_day, wd) {
            let d = v[i];
            out.push(d);
            proof {
                let rest = filter_every_wd(v@.skip(i as int + 1), by_day@);
                assert(out@ =~= old_out + seq![d]);
                assert((old_out + seq![d]) + rest =~= old_out + (seq![d] + rest));
            }
        }
        i = i + 1;
    }
    proof {
        assert(v@.skip(i as int) =~= Seq::<Date>::empty());
        assert(out@ + Seq::<Date>::empty() =~= out@);
    }
    out
}

/// The n-th weekday of a year, counted back from the year's last such
/// weekday when negative.
fn nth_weekday_of_year_x(y: i32, weekday: &Weekday, n: i16) -> (r: Option<Date>)
    requires
        0 <= y <= 10_000,
    ensures
        r == nth_weekday_of_year_spec(y as int, weekday.num_spec(), n as int),
        r is Some ==> r.unwrap().wf(),
{
    let jan1 = Date { year: y, month: 1, day: 1 };
    let w1 = weekday_x(jan1);
    let w = weekday.num();
    let f: u32 = 1 + (w + 7 - w1) % 7;
    let diy = days_in_year_x(y);
    proof {
        assert((w + 7 - w1) % 7 == (weekday.num_spec() - weekday_num(y as int, 1, 1) + 7) % 7);
    }
    let last: u32 = f + 7 * ((diy - f) / 7);
    proof {
        vstd::arithmetic::div_mod::lemma_fundamental_div_mod(diy as int - f as int, 7);
        assert(last <= diy);
    }
    if n > 0 {
        let ord: i64 = f as i64 + 7 * (n as i64 - 1);
        if ord <= diy as i64 {
            Some(ordinal_to_date(y, ord as u32))
        } else {
            None
        }
    } else if n < 0 {
        let ord: i64 = last as i64 + 7 * (n as i64 + 1);
        if ord >= 1 {
            Some(ordinal_to_date(y, ord as u32))
        } else {
            None
        }
    } else {
        None
    }
}

fn iso_week_wd_dates_x(y: i32, w: u32, lo: &Date, hi: &Date) -> (r: Vec<Date>)
    requires
        0 <= y <= 10_000,
        w <= 6,
    ensures
        r@ == iso_week_wd_dates(y as int, w as int, 1, *lo, *hi),
{
    let mut out: Vec<Date> = Vec::new();
    let mut week: u32 = 1;
    proof {
        assert(out@ + iso_week_wd_dates(y as int, w as int, 1, *lo, *hi) =~= iso_week_wd_dates(
            y as int,
            w as int,
            1,
            *lo,
            *hi,
        ));
    }
    while week <= 52
        invariant
            0 <= y <= 10_000,
            w <= 6,
            1 <= week <= 53,
            out@ + iso_week_wd_dates(y as int, w as int, week as int, *lo, *hi)
                == iso_week_wd_dates(y as int, w as int, 1, *lo, *hi),
        decreases 53 - week,
    {
        proof {
            lemma_monday_date(y as int, week as int);
        }
        let ghost old_out = out@;
        match RRuleSet::get_nth_week_by_week_no(y, week as i8) {
            Some(mon) => {
                proof {
                    let smon = monday_date_spec(y as int, week as int).unwrap();
                    lemma_dn_inj(mon, smon);
                    crate::civil::lemma_add_days(mon, w as nat);
                }
                let d = add_days(mon, w as u64);
                if in_range_x(&d, lo, hi) {
                    out.push(d);
                    proof {
                        let rest = iso_week_wd_dates(y as int, w as int, week as int + 1, *lo, *hi);
                        assert(out@ =~= old_out + seq![d]);
                        assert((old_out + seq![d]) + rest =~= old_out + (seq![d] + rest));
                    }
                }
            },
            None => {},
        }
        week = week + 1;
    }
    proof {
        assert(iso_week_wd_dates(y as int, w as int, 53, *lo, *hi) =~= Seq::<Date>::empty());
        assert(out@ + Seq::<Date>::empty() =~= out@);
    }
    out
}

fn months_weekday_dates_x(by_month: &Vec<u8>, y: i32, weekday: &Weekday, lo: &Date, hi: &Date) -> (r:
    Vec<Date>)
    requires
        0 <= y <= 10_000,
    ensures
        r@ == months_weekday_dates(
            by_month@.map_values(|x: u8| x as int),
            y as int,
            weekday.num_spec(),
            *lo,
            *hi,
        ),
{
    let ghost bm = by_month@.map_values(|x: u8| x as int);
    let ghost w = weekday.num_spec();
    let mut out: Vec<Date> = Vec::new();
    let mut i: usize = 0;
    proof {
        assert(bm.skip(0) =~= bm);
        assert(out@ + months_weekday_dates(bm, y as int, w, *lo, *hi) =~= months_weekday_dates(
            bm,
            y as int,
            w,
            *lo,
            *hi,
        ));
    }
    while i < by_month.len()
        invariant
            bm == by_month@.map_values(|x: u8| x as int),
            w == weekday.num_spec(),
            0 <= y <= 10_000,
            0 <= i <= by_month.len(),
            by_month.len() == bm.len(),
            out@ + months_weekday_dates(bm.skip(i as int), y as int, w, *lo, *hi)
                == months_weekday_dates(bm, y as int, w, *lo, *hi),
        decreases by_month.len() - i,
    {
        proof {
            assert(bm.skip(i as int)[0] == bm[i as int]);
            assert(bm[i as int] == by_month@[i as int] as int);
            assert(bm.skip(i as int).drop_first() =~= bm.skip(i as int + 1));
        }
        let ghost old_out = out@;
        let mv = by_month[i];
        if 1 <= mv && mv <= 12 {
            let alldays = RRuleSet::get_all_weekday_of_month(y, mv as u32, weekday);
            let mut filtered = filter_range_x(&alldays, lo, hi);
            let ghost fv = filtered@;
            out.append(&mut filtered);
            proof {
                let rest = months_weekday_dates(bm.skip(i as int + 1), y as int, w, *lo, *hi);
                assert(out@ =~= old_out + fv);
                assert((old_out + fv) + rest =~= old_out + (fv + rest));
            }
        }
        i = i + 1;
    }
    proof {
        assert(bm.skip(i as int) =~= Seq::<int>::empty());
        assert(out@ + Seq::<Date>::empty() =~= out@);
    }
    out
}

fn months_nth_weekday_dates_x(
    by_month: &Vec<u8>,
    y: i32,
    weekday: &Weekday,
    n: i16,
    lo: &Date,
    hi: &Date,
) -> (r: Vec<Date>)
    requires
        0 <= y <= 10_000,
    ensures
        r@ == months_nth_weekday_dates(
            by_month@.map_values(|x: u8| x as int),
            y as int,
            weekday.num_spec(),
            n as int,
            *lo,
            *hi,
        ),
{
    let ghost bm = by_month@.map_values(|x: u8| x as int);
    let ghost w = weekday.num_spec();
    let mut out: Vec<Date> = Vec::new();
    let mut i: usize = 0;
    proof {
        assert(bm.skip(0) =~= bm);
        assert(out@ + months_nth_weekday_dates(bm, y as int, w, n as int, *lo, *hi)
            =~= months_nth_weekday_dates(bm, y as int, w, n as int, *lo, *hi));
    }
    while i < by_month.len()
        invariant
            bm == by_month@.map_values(|x: u8| x as int),
            w == weekday.num_spec(),
            0 <= y <= 10_000,
            0 <= i <= by_month.len(),
            by_month.len() == bm.len(),
            out@ + months_nth_weekday_dates(bm.skip(i as int), y as int, w, n as int, *lo, *hi)
                == months_nth_weekday_dates(bm, y as int, w, n as int, *lo, *hi),
        decreases by_month.len() - i,
    {
        proof {
            assert(bm.skip(i as int)[0] == bm[i as int]);
            assert(bm[i as int] == by_month@[i as int] as int);
            assert(bm.skip(i as int).drop_first() =~= bm.skip(i as int + 1));
        }
        let ghost old_out = out@;
        let mv = by_month[i];
        if 1 <= mv && mv <= 12 {
            match RRuleSet::get_nth_weekday_of_month(y, mv as u32, weekday, n) {
                Some(d) => {
                    if in_range_x(&d, lo, hi) {
                        out.push(d);
                        proof {
                            let rest = months_nth_weekday_dates(
                                bm.skip(i as int + 1),
                                y as int,
                                w,
                                n as int,
                                *lo,
                                *hi,
                            );
                            assert(out@ =~= old_out + seq![d]);
                            assert((old_out + seq![d]) + rest =~= old_out + (seq![d] + rest));
                        }
                    }
                },
                None => {},
            }
        }
        i = i + 1;
    }
    proof {
        assert(bm.skip(i as int) =~= Seq::<int>::empty());
        assert(out@ + Seq::<Date>::empty() =~= out@);
    }
    out
}

fn year_byday_every_x(
    by_day: &Vec<NWeekday>,
    by_month: &Vec<u8>,
    y: i32,
    lo: &Date,
    hi: &Date,
) -> (r: Vec<Date>)
    requires
        0 <= y <= 10_000,
    ensures
        r@ == year_byday_every(by_day@, by_month@.map_values(|x: u8| x as int), y as int, *lo, *hi),
{
    let ghost bm = by_month@.map_values(|x: u8| x as int);
    let mut out: Vec<Date> = Vec::new();
    let mut i: usize = 0;
    proof {
        assert(by_day@.skip(0) =~= by_day@);
        assert(out@ + year_byday_every(by_day@, bm, y as int, *lo, *hi) =~= year_byday_every(
            by_day@,
            bm,
            y as int,
            *lo,
            *hi,
        ));
    }
    while i < by_day.len()
        invariant
            bm == by_month@.map_values(|x: u8| x as int),
            0 <= y <= 10_000,
            0 <= i <= by_day.len(),
            out@ + year_byday_every(by_day@.skip(i as int), bm, y as int, *lo, *hi)
                == year_byday_every(by_day@, bm, y as int, *lo, *hi),
        decreases by_day.len() - i,
    {
        proof {
            assert(by_day@.skip(i as int)[0] == by_day@[i as int]);
            assert(by_day@.skip(i as int).drop_first() =~= by_day@.skip(i as int + 1));
        }
        let ghost old_out = out@;
        match &by_day[i] {
            NWeekday::Every(w) => {
                let mut cur: Vec<Date> = if by_month.len() == 0 {
                    iso_week_wd_dates_x(y, w.num(), lo, hi)
                } else {
                    months_weekday_dates_x(by_month, y, w, lo, hi)
                };
                let ghost cv = cur@;
                out.append(&mut cur);
                proof {
                    let rest = year_byday_every(by_day@.skip(i as int + 1), bm, y as int, *lo, *hi);
                    assert(out@ =~= old_out + cv);
                    assert((old_out + cv) + rest =~= old_out + (cv + rest));
                }
            },
            NWeekday::Nth(_, _) => {},
        }
        i = i + 1;
    }
    proof {
        assert(by_day@.skip(i as int) =~= Seq::<NWeekday>::empty());
        assert(out@ + Seq::<Date>::empty() =~= out@);
    }
    out
}

fn year_byday_nth_x(
    by_day: &Vec<NWeekday>,
    by_month: &Vec<u8>,
    y: i32,
    lo: &Date,
    hi: &Date,
) -> (r: Vec<Date>)
    requires
        0 <= y <= 10_000,
    ensures
        r@ == year_byday_nth(by_day@, by_month@.map_values(|x: u8| x as int), y as int, *lo, *hi),
{
    let ghost bm = by_month@.map_values(|x: u8| x as int);
    let mut out: Vec<Date> = Vec::new();
    let mut i: usize = 0;
    proof {
        assert(by_day@.skip(0) =~= by_day@);
        assert(out@ + year_byday_nth(by_day@, bm, y as int, *lo, *hi) =~= year_byday_nth(
            by_day@,
            bm,
            y as int,
            *lo,
            *hi,
        ));
    }
    while i < by_day.len()
        invariant
            bm == by_month@.map_values(|x: u8| x as int),
            0 <= y <= 10_000,
            0 <= i <= by_day.len(),
            out@ + year_byday_nth(by_day@.skip(i as int), bm, y as int, *lo, *hi) == year_byday_nth(
                by_day@,
                bm,
                y as int,
                *lo,
                *hi,
            ),
        decreases by_day.len() - i,
    {
        proof {
            assert(by_day@.skip(i as int)[0] == by_day@[i as int]);
            assert(by_day@.skip(i as int).drop_first() =~= by_day@.skip(i as int + 1));
        }
        let ghost old_out = out@;
        match &by_day[i] {
            NWeekday::Nth(n, w) => {
                if by_month.len() == 0 {
                    match nth_weekday_of_year_x(y, w, *n) {
                        Some(d) => {
                            if in_range_x(&d, lo, hi) {
                                out.push(d);
                                proof {
                                    let rest = year_byday_nth(
                                        by_day@.skip(i as int + 1),
                                        bm,
                                        y as int,
                                        *lo,
                                        *hi,
                                    );
                                    assert(out@ =~= old_out + seq![d]);
                                    assert((old_out + seq![d]) + rest =~= old_out + (seq![d]
                                        + rest));
                                }
                            }
                        },
                        None => {},
                    }
                } else {
                    let mut cur = months_nth_weekday_dates_x(by_month, y, w, *n, lo, hi);
                    let ghost cv = cur@;
                    out.append(&mut cur);
                    proof {
                        let rest = year_byday_nth(by_day@.skip(i as int + 1), bm, y as int, *lo, *hi);
                        assert(out@ =~= old_out + cv);
                        assert((old_out + cv) + rest =~= old_out + (cv + rest));
                    }
                }
            },
            NWeekday::Every(_) => {},
        }
        i = i + 1;
    }
    proof {
        assert(by_day@.skip(i as int) =~= Seq::<NWeekday>::empty());
        assert(out@ + Seq::<Date>::empty() =~= out@);
    }
    out
}

/// One year's candidates, computed.
fn year_dates_x(rule: &RRule, y: i32, lo: &Date, hi: &Date, start: &PointTime) -> (r: Vec<Date>)
    requires
        0 <= y <= 10_000,
    ensures
        r@ == year_dates(rule@, y as int, *lo, *hi, *start),
{
    let ghost rv = rule@;
    let raw: Vec<Date>;
    if rule.by_year_day.len() == 0 && rule.by_month_day.len() == 0 && rule.by_week_no.len() == 0
        && rule.by_day.len() == 0 {
        if rule.by_month.len() == 0 {
            let mut months: Vec<u8> = Vec::new();
            if start.month <= 255 {
                months.push(start.month as u8);
                proof {
                    assert(months@.map_values(|x: u8| x as int) =~= seq![start.month as int]);
                }
                raw = plain_month_dates_x(&months, y, start.day, lo, hi);
            } else {
                raw = Vec::new();
                proof {
                    let ms = seq![start.month as int];
                    assert(ms.drop_first() =~= Seq::<int>::empty());
                    assert(plain_month_dates(ms.drop_first(), y as int, start.day as int, *lo, *hi)
                        =~= Seq::<Date>::empty());
                    assert(ms[0] > 12);
                    assert(plain_month_dates(ms, y as int, start.day as int, *lo, *hi)
                        =~= Seq::<Date>::empty());
                    assert(raw@ =~= year_dates_raw(rv, y as int, *lo, *hi, *start));
                }
            }
        } else {
            raw = plain_month_dates_x(&rule.by_month, y, start.day, lo, hi);
        }
    } else {
        let yd = year_day_dates_x(&rule.by_year_day, y, lo, hi);
        if rule.by_year_day.len() > 0 && yd.len() == 0 {
            raw = Vec::new();
            proof {
                assert(raw@ =~= year_dates_raw(rv, y as int, *lo, *hi, *start));
            }
        } else {
            let l1: Vec<Date> = if rule.by_year_day.len() > 0 {
                yd
            } else {
                Vec::new()
            };
            proof {
                if rule.by_year_day.len() == 0 {
                    assert(l1@ =~= Seq::<Date>::empty());
                }
            }
            let md = year_month_day_dates_x(&rule.by_month_day, &rule.by_month, y, lo, hi);
            if rule.by_month_day.len() > 0 && md.len() == 0 {
                raw = Vec::new();
                proof {
                    assert(raw@ =~= year_dates_raw(rv, y as int, *lo, *hi, *start));
                }
            } else {
                let ghost l1v = l1@;
                let ghost mdv = md@;
                let l2: Vec<Date> = if rule.by_month_day.len() == 0 {
                    l1
                } else if l1.len() > 0 {
                    intersect_dates_x(&l1, &md)
                } else {
                    md
                };
                proof {
                    assert forall|j: int| 0 <= j < l2@.len() implies (#[trigger] l2@[j]).wf() by {
                        if rule.by_month_day@.len() == 0 {
                        } else if l1v.len() > 0 {
                            assert(l1v.contains(l2@[j]));
                            let k = choose|k: int| 0 <= k < l1v.len() && l1v[k] == l2@[j];
                        }
                    };
                }
                if rule.by_month_day.len() > 0 && l2.len() == 0 {
                    raw = Vec::new();
                    proof {
                        assert(raw@ =~= year_dates_raw(rv, y as int, *lo, *hi, *start));
                    }
                } else {
                    let l2_nonempty = l2.len() > 0;
                    let ghost l2v = l2@;
                    let l2b: Vec<Date> = if rule.by_month.len() > 0 && l2_nonempty {
                        filter_by_month_x(&l2, &rule.by_month)
                    } else {
                        l2
                    };
                    proof {
                        assert forall|j: int| 0 <= j < l2b@.len() implies (
                        #[trigger] l2b@[j]).wf() by {
                            if rule.by_month@.len() > 0 && l2v.len() > 0 {
                                assert(l2v.contains(l2b@[j]));
                                let k = choose|k: int| 0 <= k < l2v.len() && l2v[k] == l2b@[j];
                            }
                        };
                    }
                    if rule.by_month.len() > 0 && l2_nonempty && l2b.len() == 0 {
                        raw = Vec::new();
                        proof {
                            assert(raw@ =~= year_dates_raw(rv, y as int, *lo, *hi, *start));
                        }
                    } else {
                        let wk = weekno_dates_x(&rule.by_week_no, &rule.by_day, y, lo, hi);
                        let ghost l2bv = l2b@;
                        let ghost wkv = wk@;
                        let l3: Vec<Date> = if rule.by_week_no.len() == 0 {
                            l2b
                        } else if l2b.len() > 0 {
                            intersect_dates_x(&l2b, &wk)
                        } else {
                            wk
                        };
                        proof {
                            assert forall|j: int| 0 <= j < l3@.len() implies (
                            #[trigger] l3@[j]).wf() by {
                                if rule.by_week_no@.len() == 0 {
                                } else if l2bv.len() > 0 {
                                    assert(l2bv.contains(l3@[j]));
                                    let k = choose|k: int| 0 <= k < l2bv.len() && l2bv[k] == l3@[j];
                                }
                            };
                        }
                        if rule.by_week_no.len() > 0 && l3.len() == 0 {
                            raw = Vec::new();
                            proof {
                                assert(raw@ =~= year_dates_raw(rv, y as int, *lo, *hi, *start));
                            }
                        } else {
                            if rule.by_day.len() == 0 {
                                raw = l3;
                            } else if has_every_x(&rule.by_day) && has_nth_x(&rule.by_day) {
                                raw = Vec::new();
                                proof {
                                    assert(raw@ =~= year_dates_raw(rv, y as int, *lo, *hi, *start));
                                }
                            } else {
                                let l3_nonempty = l3.len() > 0;
                                let l3b: Vec<Date> = if l3_nonempty && has_every_x(&rule.by_day) {
                                    filter_every_wd_x(&l3, &rule.by_day)
                                } else {
                                    l3
                                };
                                if l3_nonempty && has_every_x(&rule.by_day) && l3b.len() == 0 {
                                    raw = Vec::new();
                                    proof {
                                        assert(raw@ =~= year_dates_raw(
                                            rv,
                                            y as int,
                                            *lo,
                                            *hi,
                                            *start,
                                        ));
                                    }
                                } else {
                                    let mut bd = year_byday_nth_x(
                                        &rule.by_day,
                                        &rule.by_month,
                                        y,
                                        lo,
                                        hi,
                                    );
                                    let mut bde = year_byday_every_x(
                                        &rule.by_day,
                                        &rule.by_month,
                                        y,
                                        lo,
                                        hi,
                                    );
                                    let ghost bdv = bd@;
                                    let ghost bdev = bde@;
                                    bd.append(&mut bde);
                                    proof {
                                        assert(bd@ =~= bdv + bdev);
                                    }
                                    let l4: Vec<Date> = if l3b.len() > 0 {
                                        intersect_dates_x(&l3b, &bd)
                                    } else {
                                        bd
                                    };
                                    if l4.len() == 0 {
                                        raw = Vec::new();
                                        proof {
                                            assert(raw@ =~= year_dates_raw(
                                                rv,
                                                y as int,
                                                *lo,
                                                *hi,
                                                *start,
                                            ));
                                        }
                                    } else {
                                        raw = l4;
                                    }
                                }
                            }
                        }
                    }
                }
            }
        }
    }
    sort_dates_x(raw)
}

/// A sequence cut to at most `max` elements.
pub open spec fn truncated<T>(s: Seq<T>, max: int) -> Seq<T> {
    if s.len() <= max {
        s
    } else {
        s.take(max)
    }
}

/// The phase countdown of the day walkers: a fresh stride after a visited
/// day, one less while skipping.
pub open spec fn next_phase(phase: nat, skip: nat) -> nat {
    if phase > 0 {
        (phase - 1) as nat
    } else {
        skip
    }
}

/// The dates the daily expander visits and accepts, walking day by day from
/// `cur` to the day numbered `end_dn`, testing every `step`-th day.
pub open spec fn daily_dates(
    rule: RRuleView,
    cur: Date,
    end_dn: int,
    phase: nat,
    step: nat,
) -> Seq<Date>
    decreases (if cur.wf() && cur.dn() <= end_dn { end_dn + 1 - cur.dn() } else { 0 })
    via daily_dates_dec
{
    if !cur.wf() || cur.year >= 999_999 || cur.dn() > end_dn {
        Seq::empty()
    } else {
        let rest = daily_dates(
            rule,
            next_date_spec(cur),
            end_dn,
            next_phase(phase, if step > 0 { (step - 1) as nat } else { 0 }),
            step,
        );
        if phase == 0 && daily_ok(rule, cur) {
            seq![cur] + rest
        } else {
            rest
        }
    }
}

#[via_fn]
proof fn daily_dates_dec(rule: RRuleView, cur: Date, end_dn: int, phase: nat, step: nat) {
    if cur.wf() && cur.year < 999_999 && cur.dn() <= end_dn {
        crate::civil::lemma_next_date(cur);
    }
}

/// As `daily_dates`, with the weekly filter and the week-skipping stride: a
/// visited day closing a `WKST` week under `step > 1` is followed by
/// `7 * (step - 1)` silent days.
pub open spec fn weekly_dates(
    rule: RRuleView,
    start_wd: int,
    cur: Date,
    end_dn: int,
    phase: nat,
    step: nat,
) -> Seq<Date>
    decreases (if cur.wf() && cur.dn() <= end_dn { end_dn + 1 - cur.dn() } else { 0 })
    via weekly_dates_dec
{
    if !cur.wf() || cur.year >= 999_999 || cur.dn() > end_dn {
        Seq::empty()
    } else {
        let skip: nat = if cur.wd() == rule.week_start.pred_spec().num_spec() && step > 1 {
            (7 * (step - 1)) as nat
        } else {
            0
        };
        let rest = weekly_dates(rule, start_wd, next_date_spec(cur), end_dn, next_phase(phase, skip), step);
        if phase == 0 && weekly_ok(rule, start_wd, cur) {
            seq![cur] + rest
        } else {
            rest
        }
    }
}

#[via_fn]
proof fn weekly_dates_dec(
    rule: RRuleView,
    start_wd: int,
    cur: Date,
    end_dn: int,
    phase: nat,
    step: nat,
) {
    if cur.wf() && cur.year < 999_999 && cur.dn() <= end_dn {
        crate::civil::lemma_next_date(cur);
    }
}

/// Every date a day walker emits is well formed, lies in `[cur, end]`, and
/// passes its filter; and the emitted dates strictly ascend.
pub proof fn lemma_daily_dates_elems(rule: RRuleView, cur: Date, end_dn: int, phase: nat, step: nat)
    ensures
        ({
            let s = daily_dates(rule, cur, end_dn, phase, step);
            &&& forall|k: int|
                0 <= k < s.len() ==> (#[trigger] s[k]).wf() && cur.dn() <= s[k].dn() <= end_dn
                    && daily_ok(rule, s[k])
            &&& forall|i: int, j: int| 0 <= i < j < s.len() ==> s[i].dn() < s[j].dn()
        }),
    decreases (if cur.wf() && cur.dn() <= end_dn { end_dn + 1 - cur.dn() } else { 0 }),
{
    if cur.wf() && cur.year < 999_999 && cur.dn() <= end_dn {
        crate::civil::lemma_next_date(cur);
        let nxt = next_date_spec(cur);
        let ph = next_phase(phase, if step > 0 { (step - 1) as nat } else { 0 });
        lemma_daily_dates_elems(rule, nxt, end_dn, ph, step);
        let rest = daily_dates(rule, nxt, end_dn, ph, step);
        let s = daily_dates(rule, cur, end_dn, phase, step);
        if phase == 0 && daily_ok(rule, cur) {
            assert(s == seq![cur] + rest);
            assert(forall|k: int| 1 <= k < s.len() ==> s[k] == rest[k - 1]);
        } else {
            assert(s == rest);
        }
    }
}

pub proof fn lemma_weekly_dates_elems(
    rule: RRuleView,
    start_wd: int,
    cur: Date,
    end_dn: int,
    phase: nat,
    step: nat,
)
    ensures
        ({
            let s = weekly_dates(rule, start_wd, cur, end_dn, phase, step);
            &&& forall|k: int|
                0 <= k < s.len() ==> (#[trigger] s[k]).wf() && cur.dn() <= s[k].dn() <= end_dn
                    && weekly_ok(rule, start_wd, s[k])
            &&& forall|i: int, j: int| 0 <= i < j < s.len() ==> s[i].dn() < s[j].dn()
        }),
    decreases (if cur.wf() && cur.dn() <= end_dn { end_dn + 1 - cur.dn() } else { 0 }),
{
    if cur.wf() && cur.year < 999_999 && cur.dn() <= end_dn {
        crate::civil::lemma_next_date(cur);
        let skip: nat = if cur.wd() == rule.week_start.pred_spec().num_spec() && step > 1 {
            (7 * (step - 1)) as nat
        } else {
            0
        };
        let nxt = next_date_spec(cur);
        let ph = next_phase(phase, skip);
        lemma_weekly_dates_elems(rule, start_wd, nxt, end_dn, ph, step);
        let rest = weekly_dates(rule, start_wd, nxt, end_dn, ph, step);
        let s = weekly_dates(rule, start_wd, cur, end_dn, phase, step);
        if phase == 0 && weekly_ok(rule, start_wd, cur) {
            assert(s == seq![cur] + rest);
            assert(forall|k: int| 1 <= k < s.len() ==> s[k] == rest[k - 1]);
        } else {
            assert(s == rest);
        }
    }
}

/// A well-formed date with a day number at most one past the years before
/// `cap` lies in a year at most `cap`.
proof fn lemma_year_cap(d: Date, cap: int)
    requires
        d.wf(),
        0 <= cap <= 999_000,
        d.dn() <= days_before_year(cap) + 1,
    ensures
        d.year <= cap,
{
    lemma_dn_in_year(d.year as int, d.month as int, d.day as int);
    if d.year > cap {
        lemma_dby_mono(cap + 1, d.year as int);
        assert(days_before_year(cap + 1) == days_before_year(cap) + days_in_year(cap));
    }
}

impl RRuleSet {
    /// The rule whose expansion `all` returns.
    pub open spec fn primary(self) -> RRuleView {
        self.rrule@[0]@
    }

    /// The civil time the expansion stops at: `until` when set, else the
    /// horizon.
    pub open spec fn end_point(self) -> PointTime {
        match self.rrule@[0]@.until {
            Some(u) => u,
            None => self.max_until_time,
        }
    }

    /// The last calendar date an occurrence may fall on. Every occurrence
    /// carries the start's time of day, so the end civil time admits its own
    /// date exactly when its time of day is not earlier than the start's;
    /// otherwise the previous date is the last one.
    pub open spec fn end_date_incl(self) -> Date {
        let s = self.start_point_time.unwrap();
        let e = self.end_point();
        if hms_le(s, e) {
            e.date_of()
        } else {
            prev_date_spec(e.date_of())
        }
    }

    pub proof fn lemma_end_date_incl(self)
        requires
            self.expand_wf(),
        ensures
            self.end_date_incl().wf(),
            0 - 1 <= self.end_date_incl().year <= self.end_point().year,
            hms_le(self.start_point_time.unwrap(), self.end_point()) ==> self.end_date_incl()
                == self.end_point().date_of(),
            !hms_le(self.start_point_time.unwrap(), self.end_point()) ==> self.end_date_incl().lt(
                self.end_point().date_of(),
            ) && self.end_date_incl().dn() == self.end_point().date_of().dn() - 1,
    {
        let s = self.start_point_time.unwrap();
        let e = self.end_point();
        let ed = e.date_of();
        assert(ed.wf());
        if !hms_le(s, e) {
            lemma_dby_0();
            lemma_dby_mono(0, ed.year as int);
            lemma_dbm_nonneg(ed.year as int, ed.month as int);
            assert(ed.dn() > 1);
            lemma_prev_date(ed);
        }
    }

    /// Computes `end_date_incl`.
    fn effective_end_date(&self) -> (r: Date)
        requires
            self.expand_wf(),
        ensures
            r == self.end_date_incl(),
            r.wf(),
            0 - 1 <= r.year <= self.end_point().year,
    {
        proof {
            self.lemma_end_date_incl();
        }
        let start = match &self.start_point_time {
            Some(p) => p,
            None => {
                proof {
                    assert(false);
                }
                return Date { year: 0, month: 1, day: 1 };
            },
        };
        let end_pt: &PointTime = match &self.rrule[0].until {
            Some(u) => u,
            None => &self.max_until_time,
        };
        let end_full = Date { year: end_pt.year, month: end_pt.month, day: end_pt.day };
        if hms_le_x(start, end_pt) {
            end_full
        } else {
            proof {
                lemma_dby_0();
                lemma_dby_mono(0, end_full.year as int);
                lemma_dbm_nonneg(end_full.year as int, end_full.month as int);
            }
            prev_date(end_full)
        }
    }

    /// The inputs under which the expanders work: a primary rule, a start,
    /// and calendar-valid start and end dates within the four-digit years.
    pub open spec fn expand_wf(self) -> bool {
        &&& self.rrule.len() >= 1
        &&& self.start_point_time is Some
        &&& pt_valid_date(self.start_point_time.unwrap())
        &&& 0 <= self.start_point_time.unwrap().year <= 9999
        &&& pt_valid_date(self.end_point())
        &&& 0 <= self.end_point().year <= 9999
    }

    pub open spec fn max_len(self) -> int {
        if self.primary().count == 0 {
            65535
        } else {
            self.primary().count
        }
    }

    pub open spec fn step_len(self) -> nat {
        if self.primary().interval >= 1 {
            self.primary().interval as nat
        } else {
            1
        }
    }

    /// What the daily expander returns under `expand_wf`.
    pub open spec fn daily_spec(self) -> Seq<PointTime> {
        let start = self.start_point_time.unwrap();
        truncated(
            daily_dates(
                self.primary(),
                start.date_of(),
                self.end_date_incl().dn(),
                0,
                self.step_len(),
            ),
            self.max_len(),
        ).map_values(|d: Date| start.with_date(d))
    }

    /// What the weekly expander returns under `expand_wf`.
    pub open spec fn weekly_spec(self) -> Seq<PointTime> {
        let start = self.start_point_time.unwrap();
        truncated(
            weekly_dates(
                self.primary(),
                start.date_of().wd(),
                start.date_of(),
                self.end_date_incl().dn(),
                0,
                self.step_len(),
            ),
            self.max_len(),
        ).map_values(|d: Date| start.with_date(d))
    }

    /// Whether the monthly rule has no day-level selector, so the walk is a
    /// plain month stride from the start.
    pub open spec fn monthly_is_simple(self) -> bool {
        let r = self.primary();
        &&& r.by_month_day.len() == 0
        &&& r.by_year_day.len() == 0
        &&& r.by_week_no.len() == 0
        &&& r.by_day.len() == 0
    }

    /// What the monthly expander returns under `expand_wf`.
    pub open spec fn monthly_spec(self) -> Seq<PointTime> {
        let start = self.start_point_time.unwrap();
        if self.monthly_is_simple() {
            truncated(monthly_simple(start, self.end_point(), self.step_len()), self.max_len())
        } else {
            truncated(
                monthly_compound(
                    self.primary(),
                    ym_index(start.year as int, start.month as int),
                    start.date_of(),
                    self.end_date_incl(),
                    self.step_len(),
                ),
                self.max_len(),
            ).sort_by(date_leq()).map_values(|d: Date| start.with_date(d))
        }
    }

    /// Expands a monthly rule: without day-level selectors a plain month
    /// stride from the start (sliding off short months); otherwise each
    /// month's candidate set, built and narrowed stage by stage.
    pub fn expand_by_month(&self) -> (r: Result<Vec<PointTime>, String>)
        ensures
            r is Ok,
            self.expand_wf() ==> r.unwrap()@ == self.monthly_spec(),
            !self.expand_wf() ==> r.unwrap()@ == Seq::<PointTime>::empty(),
    {
        if !self.expand_ready() {
            let empty: Vec<PointTime> = Vec::new();
            proof {
                assert(empty@ =~= Seq::<PointTime>::empty());
            }
            return Ok(empty);
        }
        let start = match &self.start_point_time {
            Some(p) => p,
            None => {
                return Ok(Vec::new());
            },
        };
        let rule = &self.rrule[0];
        let end_pt: &PointTime = match &rule.until {
            Some(u) => u,
            None => &self.max_until_time,
        };
        let step32: u32 = if rule.interval == 0 {
            1
        } else {
            rule.interval
        };
        let max: u64 = if rule.count == 0 {
            65535
        } else {
            rule.count as u64
        };
        let ghost rv = rule@;
        if rule.by_month_day.len() == 0 && rule.by_year_day.len() == 0 && rule.by_week_no.len()
            == 0 && rule.by_day.len() == 0 {
            let ghost full = monthly_simple(*start, *end_pt, step32 as nat);
            let mut cur = PointTime {
                year: start.year,
                month: start.month,
                day: start.day,
                hour: start.hour,
                min: start.min,
                sec: start.sec,
            };
            let mut out: Vec<PointTime> = Vec::new();
            proof {
                assert(out@ + full =~= full);
            }
            while pt_le_x(&cur, end_pt) && (out.len() as u64) < max
                invariant
                    self.expand_wf(),
                    rule@ == rv,
                    rv == self.primary(),
                    *end_pt == self.end_point(),
                    full == monthly_simple(self.start_point_time.unwrap(), *end_pt, step32 as nat),
                    step32 as nat == self.step_len(),
                    max as int == self.max_len(),
                    1 <= step32,
                    pt_valid_date(cur),
                    0 <= cur.year,
                    out@ + monthly_simple(cur, *end_pt, step32 as nat) == full,
                    out.len() <= max,
                decreases
                        (if ym_index(cur.year as int, cur.month as int) <= ym_index(
                            end_pt.year as int,
                            end_pt.month as int,
                        ) {
                            ym_index(end_pt.year as int, end_pt.month as int) + 1 - ym_index(
                                cur.year as int,
                                cur.month as int,
                            )
                        } else {
                            0
                        }),
            {
                proof {
                    assert(cur.year <= end_pt.year);
                    lemma_add_month_spec(cur, step32 as int);
                }
                let ghost old_out = out@;
                let ghost tail = monthly_simple(cur, *end_pt, step32 as nat);
                out.push(
                    PointTime {
                        year: cur.year,
                        month: cur.month,
                        day: cur.day,
                        hour: cur.hour,
                        min: cur.min,
                        sec: cur.sec,
                    },
                );
                let next = cur.add_month(step32);
                proof {
                    let rest = monthly_simple(next, *end_pt, step32 as nat);
                    assert(tail == seq![cur] + rest);
                    assert(out@ =~= old_out + seq![cur]);
                    assert((old_out + seq![cur]) + rest =~= old_out + (seq![cur] + rest));
                }
                cur = next;
            }
            if !pt_le_x(&cur, end_pt) {
                proof {
                    assert(monthly_simple(cur, *end_pt, step32 as nat) =~= Seq::<PointTime>::empty());
                    assert(out@ =~= full);
                    assert(truncated(full, max as int) == full);
                }
            } else {
                proof {
                    assert(full.take(out@.len() as int) =~= out@);
                    assert(truncated(full, max as int) == out@);
                }
            }
            return Ok(out);
        }
        let start_date = Date { year: start.year, month: start.month, day: start.day };
        let end_date = self.effective_end_date();
        let ghost full = monthly_compound(
            rv,
            ym_index(start.year as int, start.month as int),
            start_date,
            end_date,
            step32 as nat,
        );
        let mut y: i32 = start.year;
        let mut mo: u32 = start.month;
        let mut dates: Vec<Date> = Vec::new();
        proof {
            assert(dates@ + full =~= full);
        }
        loop
            invariant
                self.expand_wf(),
                rule@ == rv,
                rv == self.primary(),
                *end_pt == self.end_point(),
                start_date == self.start_point_time.unwrap().date_of(),
                end_date == self.end_date_incl(),
                0 - 1 <= end_date.year <= 9999,
                full == monthly_compound(
                    rv,
                    ym_index(self.start_point_time.unwrap().year as int,
                    self.start_point_time.unwrap().month as int),
                    start_date,
                    end_date,
                    step32 as nat,
                ),
                step32 as nat == self.step_len(),
                max as int == self.max_len(),
                1 <= step32,
                1 <= mo <= 12,
                0 <= y,
                y + 1 <= 400_000_000,
                dates@ + monthly_compound(
                    rv,
                    ym_index(y as int, mo as int),
                    start_date,
                    end_date,
                    step32 as nat,
                ) == full,
            ensures
                (dates.len() as u64) >= max || !(Date { year: y, month: mo, day: 1 }.lt(end_date)),
            decreases
                    (if ym_index(y as int, mo as int) <= ym_index(
                        end_date.year as int,
                        end_date.month as int,
                    ) {
                        ym_index(end_date.year as int, end_date.month as int) + 1 - ym_index(
                            y as int,
                            mo as int,
                        )
                    } else {
                        0
                    }),
        {
            let first = Date { year: y, month: mo, day: 1 };
            if !((dates.len() as u64) < max && date_lt(&first, &end_date)) {
                break ;
            }
            proof {
                assert(y <= end_date.year);
                assert(ym_index(y as int, mo as int) >= 0);
                assert(ym_index(y as int, mo as int) <= 120_000);
            }
            let last = Self::get_last_day_of_month(y, mo);
            let lo = if date_lt(&first, &start_date) {
                start_date
            } else {
                first
            };
            let hi = if date_lt(&end_date, &last) {
                end_date
            } else {
                last
            };
            let mut mds = month_dates_x(rule, y, mo, &lo, &hi);
            let ghost old_dates = dates@;
            let ghost mdsv = mds@;
            dates.append(&mut mds);
            let ghost ym_old = ym_index(y as int, mo as int);
            let ym_next: u64 = y as u64 * 12 + (mo as u64 - 1) + step32 as u64;
            let y2: u64 = ym_next / 12;
            let m2: u64 = ym_next % 12 + 1;
            proof {
                vstd::arithmetic::div_mod::lemma_fundamental_div_mod(ym_next as int, 12);
                assert(dates@ =~= old_dates + mdsv);
                let rest = monthly_compound(
                    rv,
                    ym_old + step32 as int,
                    start_date,
                    end_date,
                    step32 as nat,
                );
                assert(monthly_compound(rv, ym_old, start_date, end_date, step32 as nat)
                    == month_dates(rv, y as int, mo as int, lo, hi) + rest);
                assert((old_dates + mdsv) + rest =~= old_dates + (mdsv + rest));
                assert(ym_index(y2 as int, m2 as int) == ym_old + step32 as int);
            }
            y = y2 as i32;
            mo = m2 as u32;
        }
        let first = Date { year: y, month: mo, day: 1 };
        proof {
            if !first.lt(end_date) {
                assert(monthly_compound(
                    rv,
                    ym_index(y as int, mo as int),
                    start_date,
                    end_date,
                    step32 as nat,
                ) =~= Seq::<Date>::empty());
                assert(dates@ =~= full);
            } else {
                assert(dates.len() >= max);
                assert(full.take(max as int) =~= dates@.take(max as int));
            }
        }
        if (dates.len() as u64) > max {
            dates.truncate(max as usize);
            proof {
                assert(dates@ =~= truncated(full, max as int));
            }
        } else {
            proof {
                if !first.lt(end_date) {
                    assert(truncated(full, max as int) == full);
                } else {
                    assert(dates.len() == max);
                    assert(dates@.take(max as int) =~= dates@);
                }
                assert(dates@ == truncated(full, max as int));
            }
        }
        let sorted = sort_dates_x(dates);
        Ok(dates_to_points(sorted, start))
    }

    /// What the yearly expander returns under `expand_wf`.
    pub open spec fn yearly_spec(self) -> Seq<PointTime> {
        let start = self.start_point_time.unwrap();
        truncated(
            yearly_years(
                self.primary(),
                start.year as int,
                start.date_of(),
                self.end_date_incl(),
                start,
                self.step_len(),
            ),
            self.max_len(),
        ).map_values(|d: Date| start.with_date(d))
    }

    /// Expands a yearly rule: every `INTERVAL`-th year up to the last
    /// admissible date's year contributes its candidate set, built and
    /// narrowed stage by stage (or, without day-level selectors, the
    /// start's day in each permitted month).
    pub fn expand_by_year(&self) -> (r: Result<Vec<PointTime>, String>)
        ensures
            r is Ok,
            self.expand_wf() ==> r.unwrap()@ == self.yearly_spec(),
            !self.expand_wf() ==> r.unwrap()@ == Seq::<PointTime>::empty(),
    {
        if !self.expand_ready() {
            let empty: Vec<PointTime> = Vec::new();
            proof {
                assert(empty@ =~= Seq::<PointTime>::empty());
            }
            return Ok(empty);
        }
        let start = match &self.start_point_time {
            Some(p) => p,
            None => {
                return Ok(Vec::new());
            },
        };
        let rule = &self.rrule[0];
        let end_pt: &PointTime = match &rule.until {
            Some(u) => u,
            None => &self.max_until_time,
        };
        let start_date = Date { year: start.year, month: start.month, day: start.day };
        let end_date = self.effective_end_date();
        let step: u64 = if rule.interval == 0 {
            1
        } else {
            rule.interval as u64
        };
        let max: u64 = if rule.count == 0 {
            65535
        } else {
            rule.count as u64
        };
        let ghost rv = rule@;
        let ghost full = yearly_years(
            rv,
            start.year as int,
            start_date,
            end_date,
            *start,
            step as nat,
        );
        let mut y: i64 = start.year as i64;
        let mut dates: Vec<Date> = Vec::new();
        proof {
            assert(dates@ + full =~= full);
        }
        loop
            invariant
                self.expand_wf(),
                rule@ == rv,
                rv == self.primary(),
                *end_pt == self.end_point(),
                start_date == self.start_point_time.unwrap().date_of(),
                end_date == self.end_date_incl(),
                *start == self.start_point_time.unwrap(),
                0 - 1 <= end_date.year <= 9999,
                full == yearly_years(
                    rv,
                    self.start_point_time.unwrap().year as int,
                    start_date,
                    end_date,
                    *start,
                    step as nat,
                ),
                step as nat == self.step_len(),
                max as int == self.max_len(),
                1 <= step,
                0 <= y <= 10_000 + 4_294_967_295,
                dates@ + yearly_years(rv, y as int, start_date, end_date, *start, step as nat)
                    == full,
            ensures
                (dates.len() as u64) >= max || y > end_date.year as i64,
            decreases
                    (if y <= end_date.year as i64 {
                        end_date.year as i64 + 1 - y
                    } else {
                        0
                    }),
        {
            if !((dates.len() as u64) < max && y <= end_date.year as i64) {
                break ;
            }
            let yi = y as i32;
            let jan1 = Date { year: yi, month: 1, day: 1 };
            let dec31 = Date { year: yi, month: 12, day: 31 };
            let lo = if date_lt(&jan1, &start_date) {
                start_date
            } else {
                jan1
            };
            let hi = if date_lt(&end_date, &dec31) {
                end_date
            } else {
                dec31
            };
            let mut yds = year_dates_x(rule, yi, &lo, &hi, start);
            let ghost old_dates = dates@;
            let ghost ydv = yds@;
            dates.append(&mut yds);
            proof {
                let rest = yearly_years(
                    rv,
                    y as int + step as int,
                    start_date,
                    end_date,
                    *start,
                    step as nat,
                );
                assert(dates@ =~= old_dates + ydv);
                assert((old_dates + ydv) + rest =~= old_dates + (ydv + rest));
            }
            y = y + step as i64;
        }
        proof {
            if y > end_date.year as i64 {
                assert(yearly_years(rv, y as int, start_date, end_date, *start, step as nat)
                    =~= Seq::<Date>::empty());
                assert(dates@ =~= full);
            } else {
                assert(dates.len() >= max);
                assert(full.take(max as int) =~= dates@.take(max as int));
            }
        }
        if (dates.len() as u64) > max {
            dates.truncate(max as usize);
            proof {
                assert(dates@ =~= truncated(full, max as int));
            }
        } else {
            proof {
                if y > end_date.year as i64 {
                    assert(truncated(full, max as int) == full);
                } else {
                    assert(dates.len() == max);
                    assert(dates@.take(max as int) =~= dates@);
                }
                assert(dates@ == truncated(full, max as int));
            }
        }
        Ok(dates_to_points(dates, start))
    }

    /// Decides `expand_wf`.
    fn expand_ready(&self) -> (r: bool)
        ensures
            r == self.expand_wf(),
    {
        if self.rrule.len() == 0 {
            return false;
        }
        let start_ok = match &self.start_point_time {
            Some(p) => p.is_valid() && p.year >= 0 && p.year <= 9999,
            None => false,
        };
        if !start_ok {
            return false;
        }
        let end: &PointTime = match &self.rrule[0].until {
            Some(u) => u,
            None => &self.max_until_time,
        };
        end.is_valid() && end.year >= 0 && end.year <= 9999
    }

    /// Expands a daily rule: every `INTERVAL`-th day from the start, kept
    /// when it passes the BY* filters, up to the count or the last date
    /// whose occurrence still fits under the `until` civil time.
    pub fn expand_by_day(&self) -> (r: Result<Vec<PointTime>, String>)
        ensures
            r is Ok,
            self.expand_wf() ==> r.unwrap()@ == self.daily_spec(),
            !self.expand_wf() ==> r.unwrap()@ == Seq::<PointTime>::empty(),
    {
        if !self.expand_ready() {
            let empty: Vec<PointTime> = Vec::new();
            proof {
                assert(empty@ =~= Seq::<PointTime>::empty());
            }
            return Ok(empty);
        }
        let start = match &self.start_point_time {
            Some(p) => p,
            None => {
                return Ok(Vec::new());
            },
        };
        let rule = &self.rrule[0];
        let end_pt: &PointTime = match &rule.until {
            Some(u) => u,
            None => &self.max_until_time,
        };
        let start_date = Date { year: start.year, month: start.month, day: start.day };
        let end_date = self.effective_end_date();
        let end_dn = day_number_x(end_date);
        let step: u64 = if rule.interval == 0 {
            1
        } else {
            rule.interval as u64
        };
        let max: u64 = if rule.count == 0 {
            65535
        } else {
            rule.count as u64
        };
        let ghost rv = rule@;
        let ghost full = daily_dates(rv, start_date, end_dn as int, 0, step as nat);
        proof {
            lemma_dn_in_year(end_date.year as int, end_date.month as int, end_date.day as int);
            lemma_dby_mono(end_date.year as int + 1, 10_000);
        }
        let mut cur = start_date;
        let mut cur_dn = day_number_x(start_date);
        let mut phase: u64 = 0;
        let mut dates: Vec<Date> = Vec::new();
        proof {
            assert(dates@ + full =~= full);
        }
        while cur_dn <= end_dn && (dates.len() as u64) < max
            invariant
                rule@ == rv,
                self.expand_wf(),
                full == daily_dates(rv, start_date, end_dn as int, 0, step as nat),
                end_dn as int <= days_before_year(10_000),
                end_dn <= 400_000_000,
                step == self.step_len(),
                max == self.max_len(),
                rv == self.primary(),
                step >= 1,
                cur.wf(),
                0 <= cur.year <= 10_000,
                cur_dn == cur.dn(),
                dates@ + daily_dates(rv, cur, end_dn as int, phase as nat, step as nat) == full,
                dates.len() <= max,
            decreases end_dn + 1 - cur_dn,
        {
            let ghost tail = daily_dates(rv, cur, end_dn as int, phase as nat, step as nat);
            proof {
                assert(cur.year < 999_999);
            }
            if phase == 0 && daily_accept(rule, &cur) {
                dates.push(cur);
                proof {
                    let rest = daily_dates(
                        rv,
                        next_date_spec(cur),
                        end_dn as int,
                        next_phase(phase as nat, (step - 1) as nat),
                        step as nat,
                    );
                    assert(tail == seq![cur] + rest);
                    assert(dates@ + rest =~= (dates@.drop_last() + seq![cur]) + rest);
                    assert(dates@.drop_last() + (seq![cur] + rest) =~= (dates@.drop_last()
                        + seq![cur]) + rest);
                }
            }
            let next = next_date(cur);
            cur = next;
            cur_dn = cur_dn + 1;
            phase = if phase == 0 {
                step - 1
            } else {
                phase - 1
            };
            proof {
                lemma_year_cap(cur, 10_000);
            }
        }
        if cur_dn > end_dn {
            proof {
                assert(daily_dates(rv, cur, end_dn as int, phase as nat, step as nat)
                    =~= Seq::<Date>::empty());
                assert(dates@ =~= full);
                assert(truncated(full, max as int) == full);
            }
        } else {
            proof {
                let tail = daily_dates(rv, cur, end_dn as int, phase as nat, step as nat);
                assert(full.take(dates@.len() as int) =~= dates@);
                assert(truncated(full, max as int) == dates@);
            }
        }
        Ok(dates_to_points(dates, start))
    }

    /// Expands a weekly rule: walks day by day, skipping `7 * (INTERVAL-1)`
    /// days past each `WKST` week boundary; an empty `BYDAY` keeps only the
    /// start's weekday.
    pub fn expand_by_week(&self) -> (r: Result<Vec<PointTime>, String>)
        ensures
            r is Ok,
            self.expand_wf() ==> r.unwrap()@ == self.weekly_spec(),
            !self.expand_wf() ==> r.unwrap()@ == Seq::<PointTime>::empty(),
    {
        if !self.expand_ready() {
            let empty: Vec<PointTime> = Vec::new();
            proof {
                assert(empty@ =~= Seq::<PointTime>::empty());
            }
            return Ok(empty);
        }
        let start = match &self.start_point_time {
            Some(p) => p,
            None => {
                return Ok(Vec::new());
            },
        };
        let rule = &self.rrule[0];
        let end_pt: &PointTime = match &rule.until {
            Some(u) => u,
            None => &self.max_until_time,
        };
        let start_date = Date { year: start.year, month: start.month, day: start.day };
        let end_date = self.effective_end_date();
        let end_dn = day_number_x(end_date);
        let start_wd = weekday_x(start_date);
        let wkst_pred = rule.week_start.pred().num();
        let step: u64 = if rule.interval == 0 {
            1
        } else {
            rule.interval as u64
        };
        let max: u64 = if rule.count == 0 {
            65535
        } else {
            rule.count as u64
        };
        let ghost rv = rule@;
        let ghost full = weekly_dates(
            rv,
            start_wd as int,
            start_date,
            end_dn as int,
            0,
            step as nat,
        );
        proof {
            lemma_dn_in_year(end_date.year as int, end_date.month as int, end_date.day as int);
            lemma_dby_mono(end_date.year as int + 1, 10_000);
        }
        let mut cur = start_date;
        let mut cur_dn = day_number_x(start_date);
        let mut phase: u64 = 0;
        let mut dates: Vec<Date> = Vec::new();
        proof {
            assert(dates@ + full =~= full);
        }
        while cur_dn <= end_dn && (dates.len() as u64) < max
            invariant
                rule@ == rv,
                self.expand_wf(),
                full == weekly_dates(rv, start_wd as int, start_date, end_dn as int, 0, step as nat),
                end_dn as int <= days_before_year(10_000),
                end_dn <= 400_000_000,
                step == self.step_len(),
                max == self.max_len(),
                rv == self.primary(),
                start_wd == self.start_point_time.unwrap().date_of().wd(),
                wkst_pred == rv.week_start.pred_spec().num_spec(),
                step >= 1,
                cur.wf(),
                0 <= cur.year <= 10_000,
                cur_dn == cur.dn(),
                dates@ + weekly_dates(rv, start_wd as int, cur, end_dn as int, phase as nat, step as nat)
                    == full,
                dates.len() <= max,
            decreases end_dn + 1 - cur_dn,
        {
            let ghost tail = weekly_dates(
                rv,
                start_wd as int,
                cur,
                end_dn as int,
                phase as nat,
                step as nat,
            );
            proof {
                assert(cur.year < 999_999);
            }
            let cur_wd = weekday_x(cur);
            let ghost skip: nat = if cur.wd() == rv.week_start.pred_spec().num_spec() && step > 1 {
                (7 * (step - 1)) as nat
            } else {
                0
            };
            if phase == 0 && weekly_accept(rule, start_wd, &cur) {
                dates.push(cur);
                proof {
                    let rest = weekly_dates(
                        rv,
                        start_wd as int,
                        next_date_spec(cur),
                        end_dn as int,
                        next_phase(phase as nat, skip),
                        step as nat,
                    );
                    assert(tail == seq![cur] + rest);
                    assert(dates@.drop_last() + (seq![cur] + rest) =~= (dates@.drop_last()
                        + seq![cur]) + rest);
                }
            }
            let next = next_date(cur);
            cur = next;
            cur_dn = cur_dn + 1;
            phase = if phase > 0 {
                phase - 1
            } else if cur_wd == wkst_pred && step > 1 {
                7 * (step - 1)
            } else {
                0
            };
            proof {
                lemma_year_cap(cur, 10_000);
            }
        }
        if cur_dn > end_dn {
            proof {
                assert(weekly_dates(rv, start_wd as int, cur, end_dn as int, phase as nat, step as nat)
                    =~= Seq::<Date>::empty());
                assert(dates@ =~= full);
                assert(truncated(full, max as int) == full);
            }
        } else {
            proof {
                assert(full.take(dates@.len() as int) =~= dates@);
                assert(truncated(full, max as int) == dates@);
            }
        }
        Ok(dates_to_points(dates, start))
    }
}

/// Stamps the start's time of day onto each date.
fn dates_to_points(dates: Vec<Date>, start: &PointTime) -> (r: Vec<PointTime>)
    ensures
        r@ == dates@.map_values(|d: Date| start.with_date(d)),
{
    let ghost target = dates@.map_values(|d: Date| start.with_date(d));
    let mut out: Vec<PointTime> = Vec::new();
    let mut i: usize = 0;
    proof {
        assert(out@ =~= target.take(0));
    }
    while i < dates.len()
        invariant
            target == dates@.map_values(|d: Date| start.with_date(d)),
            0 <= i <= dates.len(),
            out@ == target.take(i as int),
        decreases dates.len() - i,
    {
        let d = dates[i];
        out.push(
            PointTime {
                year: d.year,
                month: d.month,
                day: d.day,
                hour: start.hour,
                min: start.min,
                sec: start.sec,
            },
        );
        proof {
            assert(target[i as int] == start.with_date(dates@[i as int]));
            assert(out@ =~= target.take(i as int + 1));
        }
        i = i + 1;
    }
    proof {
        assert(target.take(dates.len() as int) =~= target);
    }
    out
}

/// The weekly filter, decided.
fn weekly_accept(rule: &RRule, start_wd: u32, d: &Date) -> (r: bool)
    requires
        d.wf(),
        0 <= d.year <= 998_000,
    ensures
        r == weekly_ok(rule@, start_wd as int, *d),
{
    let wd = weekday_x(*d);
    if rule.by_day.len() == 0 {
        if wd != start_wd {
            return false;
        }
    } else if !byday_contains_wd(&rule.by_day, wd) {
        return false;
    }
    if rule.by_month.len() > 0 && !bymonth_contains(&rule.by_month, d.month) {
        return false;
    }
    if rule.by_month_day.len() > 0 && !any_nth_dom(&rule.by_month_day, d) {
        return false;
    }
    if rule.by_year_day.len() > 0 && !any_nth_doy(&rule.by_year_day, d) {
        return false;
    }
    if rule.by_week_no.len() > 0 && !any_weekno(&rule.by_week_no, d) {
        return false;
    }
    true
}

// ---------------------------------------------------------------------------
// Result assembly: window, sort, and duplicate removal.
// ---------------------------------------------------------------------------

/// The ordering the final occurrence list is sorted by.
pub open spec fn pt_leq() -> spec_fn(PointTime, PointTime) -> bool {
    |a: PointTime, b: PointTime| pt_le(a, b)
}

pub proof fn lemma_pt_le_total()
    ensures
        vstd::relations::total_ordering(pt_leq()),
{
    let leq = pt_leq();
    assert forall|a: PointTime, b: PointTime| #[trigger] leq(a, b) && #[trigger] leq(b, a)
        implies a == b by {
        assert(pt_le(a, b) && pt_le(b, a));
    };
    assert forall|a: PointTime, b: PointTime, c: PointTime| #[trigger] leq(a, b) && #[trigger] leq(
        b,
        c,
    ) implies leq(a, c) by {
        assert(pt_le(a, b) && pt_le(b, c));
    };
    assert forall|a: PointTime, b: PointTime| #[trigger] leq(a, b) || #[trigger] leq(b, a) by {
        assert(pt_le(a, b) || pt_le(b, a));
    };
}

/// Keeps the civil times inside the optional `[bs, be]` window, both bounds
/// inclusive.
pub open spec fn filter_window(
    s: Seq<PointTime>,
    bs: Option<PointTime>,
    be: Option<PointTime>,
) -> Seq<PointTime>
    decreases s.len(),
{
    if s.len() == 0 {
        Seq::empty()
    } else {
        let rest = filter_window(s.drop_first(), bs, be);
        if window_admits(s[0], bs, be) {
            seq![s[0]] + rest
        } else {
            rest
        }
    }
}

pub open spec fn window_admits(p: PointTime, bs: Option<PointTime>, be: Option<PointTime>) -> bool {
    &&& match bs {
        None => true,
        Some(b) => pt_le(b, p),
    }
    &&& match be {
        None => true,
        Some(b) => pt_le(p, b),
    }
}

pub proof fn lemma_filter_window_len(s: Seq<PointTime>, bs: Option<PointTime>, be: Option<
    PointTime,
>)
    ensures
        filter_window(s, bs, be).len() <= s.len(),
    decreases s.len(),
{
    if s.len() > 0 {
        lemma_filter_window_len(s.drop_first(), bs, be);
    }
}

fn filter_window_x(v: Vec<PointTime>, bs: &Option<PointTime>, be: &Option<PointTime>) -> (r: Vec<
    PointTime,
>)
    ensures
        r@ == filter_window(v@, *bs, *be),
        r.len() <= v.len(),
{
    let mut out: Vec<PointTime> = Vec::new();
    let mut i: usize = 0;
    proof {
        assert(v@.skip(0) =~= v@);
        assert(out@ + filter_window(v@, *bs, *be) =~= filter_window(v@, *bs, *be));
        lemma_filter_window_len(v@, *bs, *be);
    }
    while i < v.len()
        invariant
            0 <= i <= v.len(),
            out@ + filter_window(v@.skip(i as int), *bs, *be) == filter_window(v@, *bs, *be),
            out.len() + filter_window(v@.skip(i as int), *bs, *be).len() == filter_window(
                v@,
                *bs,
                *be,
            ).len(),
            filter_window(v@, *bs, *be).len() <= v.len(),
        decreases v.len() - i,
    {
        proof {
            assert(v@.skip(i as int)[0] == v@[i as int]);
            assert(v@.skip(i as int).drop_first() =~= v@.skip(i as int + 1));
        }
        let ghost old_out = out@;
        let keep_lo = match bs {
            None => true,
            Some(b) => pt_le_x(b, &v[i]),
        };
        let keep_hi = match be {
            None => true,
            Some(b) => pt_le_x(&v[i], b),
        };
        if keep_lo && keep_hi {
            let p = PointTime {
                year: v[i].year,
                month: v[i].month,
                day: v[i].day,
                hour: v[i].hour,
                min: v[i].min,
                sec: v[i].sec,
            };
            proof {
                assert(p == v@[i as int]);
            }
            out.push(p);
            proof {
                let rest = filter_window(v@.skip(i as int + 1), *bs, *be);
                assert(out@ =~= old_out + seq![p]);
                assert((old_out + seq![p]) + rest =~= old_out + (seq![p] + rest));
            }
        }
        i = i + 1;
    }
    proof {
        assert(v@.skip(i as int) =~= Seq::<PointTime>::empty());
        assert(out@ + Seq::<PointTime>::empty() =~= out@);
    }
    out
}

/// Sorts civil times ascending; the result is the unique sorted arrangement
/// of the input.
fn sort_points_x(v: Vec<PointTime>) -> (r: Vec<PointTime>)
    ensures
        r@ == v@.sort_by(pt_leq()),
        r@.to_multiset() == v@.to_multiset(),
        r@.len() == v@.len(),
{
    proof {
        lemma_pt_le_total();
        v@.lemma_sort_by_ensures(pt_leq());
        broadcast use vstd::seq_lib::group_to_multiset_ensures;

    }
    let mut rem = v;
    let mut out: Vec<PointTime> = Vec::new();
    while rem.len() > 0
        invariant
            out@.to_multiset().add(rem@.to_multiset()) == v@.to_multiset(),
            vstd::relations::sorted_by(out@, pt_leq()),
            forall|i: int, j: int|
                0 <= i < out@.len() && 0 <= j < rem@.len() ==> pt_leq()(
                    #[trigger] out@[i],
                    #[trigger] rem@[j],
                ),
        decreases rem.len(),
    {
        proof {
            broadcast use vstd::seq_lib::group_to_multiset_ensures;

        }
        let mut best: usize = 0;
        let mut k: usize = 1;
        while k < rem.len()
            invariant
                0 <= best < rem@.len(),
                1 <= k <= rem@.len(),
                forall|j: int| 0 <= j < k ==> pt_le(rem@[best as int], #[trigger] rem@[j]),
            decreases rem.len() - k,
        {
            if pt_lt_x(&rem[k], &rem[best]) {
                best = k;
            }
            k = k + 1;
        }
        let ghost old_rem = rem@;
        let ghost old_out = out@;
        let d = rem.remove(best);
        out.push(d);
        proof {
            broadcast use vstd::seq_lib::group_to_multiset_ensures;

            assert(old_rem.remove(best as int) =~= rem@);
            assert(rem@.to_multiset() == old_rem.to_multiset().remove(d));
            assert(out@.to_multiset() == old_out.to_multiset().insert(d));
            assert(out@.to_multiset().add(rem@.to_multiset()) =~= v@.to_multiset());
            assert forall|i: int, j: int|
                0 <= i < out@.len() && 0 <= j < rem@.len() implies pt_leq()(
                #[trigger] out@[i],
                #[trigger] rem@[j],
            ) by {
                assert(old_rem.to_multiset().contains(rem@[j]));
                if !old_rem.contains(rem@[j]) {
                    assert(false);
                }
                let jj = choose|jj: int| 0 <= jj < old_rem.len() && old_rem[jj] == rem@[j];
                assert(pt_le(d, old_rem[jj]));
                if i < out@.len() - 1 {
                    assert(pt_leq()(old_out[i], d));
                }
            };
            assert(vstd::relations::sorted_by(out@, pt_leq())) by {
                assert forall|i: int, j: int| 0 <= i < j < out@.len() implies pt_leq()(
                    out@[i],
                    out@[j],
                ) by {
                    if j < out@.len() - 1 {
                        assert(pt_leq()(old_out[i], old_out[j]));
                    } else {
                        assert(old_rem.to_multiset().contains(d));
                    }
                };
            };
        }
    }
    proof {
        broadcast use vstd::seq_lib::group_to_multiset_ensures;

        assert(rem@ =~= Seq::<PointTime>::empty());
        assert(rem@.to_multiset() =~= Multiset::<PointTime>::empty());
        assert(out@.to_multiset() =~= v@.to_multiset());
        assert(out@.to_multiset().len() == out@.len());
        assert(v@.to_multiset().len() == v@.len());
        lemma_pt_le_total();
        v@.lemma_sort_by_ensures(pt_leq());
        vstd::seq_lib::lemma_sorted_unique(out@, v@.sort_by(pt_leq()), pt_leq());
    }
    out
}

/// A sorted run collapsed to one element each: the final sort-unique pass.
pub open spec fn dedup_adj(s: Seq<PointTime>) -> Seq<PointTime>
    decreases s.len(),
{
    if s.len() == 0 {
        Seq::empty()
    } else if s.len() == 1 {
        s
    } else {
        let rest = dedup_adj(s.drop_first());
        if s[0] == s[1] {
            rest
        } else {
            seq![s[0]] + rest
        }
    }
}

/// Removing adjacent duplicates of a sorted sequence leaves the same values,
/// each once, in strictly ascending order.
pub proof fn lemma_dedup_adj(s: Seq<PointTime>)
    requires
        vstd::relations::sorted_by(s, pt_leq()),
    ensures
        ({
            let r = dedup_adj(s);
            &&& forall|i: int, j: int| 0 <= i < j < r.len() ==> pt_lt(#[trigger] r[i], #[trigger] r[j])
            &&& forall|x: PointTime| r.contains(x) == s.contains(x)
            &&& r.len() <= s.len()
        }),
    decreases s.len(),
{
    let r = dedup_adj(s);
    if s.len() <= 1 {
        if s.len() == 1 {
            assert(forall|x: PointTime| r.contains(x) == s.contains(x));
        }
    } else {
        let tail = s.drop_first();
        assert(vstd::relations::sorted_by(tail, pt_leq())) by {
            assert forall|i: int, j: int| 0 <= i < j < tail.len() implies pt_leq()(
                #[trigger] tail[i],
                #[trigger] tail[j],
            ) by {
                assert(tail[i] == s[i + 1] && tail[j] == s[j + 1]);
                assert(pt_leq()(s[i + 1], s[j + 1]));
            };
        };
        lemma_dedup_adj(tail);
        let rt = dedup_adj(tail);
        if s[0] == s[1] {
            assert(r == rt);
            assert forall|x: PointTime| r.contains(x) == s.contains(x) by {
                if s.contains(x) {
                    let k = choose|k: int| 0 <= k < s.len() && s[k] == x;
                    if k == 0 {
                        assert(tail[0] == s[1]);
                        assert(tail.contains(s[1]));
                    } else {
                        assert(tail[k - 1] == x);
                        assert(tail.contains(x));
                    }
                }
                if r.contains(x) {
                    assert(tail.contains(x));
                    let k = choose|k: int| 0 <= k < tail.len() && tail[k] == x;
                    assert(s[k + 1] == x);
                    assert(s.contains(x));
                }
            };
        } else {
            assert(r == seq![s[0]] + rt);
            assert forall|i: int, j: int| 0 <= i < j < r.len() implies pt_lt(
                #[trigger] r[i],
                #[trigger] r[j],
            ) by {
                if i >= 1 {
                    assert(r[i] == rt[i - 1] && r[j] == rt[j - 1]);
                } else {
                    assert(r[j] == rt[j - 1]);
                    assert(rt.contains(rt[j - 1]));
                    assert(tail.contains(rt[j - 1]));
                    let k = choose|k: int| 0 <= k < tail.len() && tail[k] == rt[j - 1];
                    assert(tail[k] == s[k + 1]);
                    assert(pt_leq()(s[0], s[1]));
                    assert(s[0] != s[1]);
                    assert(pt_lt(s[0], s[1]));
                    if k + 1 > 1 {
                        assert(pt_leq()(s[1], s[k + 1]));
                    }
                }
            };
            assert forall|x: PointTime| r.contains(x) == s.contains(x) by {
                if s.contains(x) {
                    let k = choose|k: int| 0 <= k < s.len() && s[k] == x;
                    if k == 0 {
                        assert(r[0] == x);
                    } else {
                        assert(tail[k - 1] == x);
                        assert(tail.contains(x));
                        assert(rt.contains(x));
                        let kk = choose|kk: int| 0 <= kk < rt.len() && rt[kk] == x;
                        assert(r[kk + 1] == x);
                    }
                }
                if r.contains(x) {
                    let k = choose|k: int| 0 <= k < r.len() && r[k] == x;
                    if k == 0 {
                        assert(s[0] == x);
                    } else {
                        assert(r[k] == rt[k - 1]);
                        assert(rt.contains(x));
                        assert(tail.contains(x));
                        let kk = choose|kk: int| 0 <= kk < tail.len() && tail[kk] == x;
                        assert(s[kk + 1] == x);
                        assert(s.contains(x));
                    }
                }
            };
        }
    }
}

/// Drops the adjacent duplicates of a sorted list.
fn dedup_sorted_pts(v: Vec<PointTime>) -> (r: Vec<PointTime>)
    requires
        vstd::relations::sorted_by(v@, pt_leq()),
    ensures
        r@ == dedup_adj(v@),
        r.len() <= v.len(),
{
    let mut out: Vec<PointTime> = Vec::new();
    let mut i: usize = 0;
    let ghost full = dedup_adj(v@);
    proof {
        assert(v@.skip(0) =~= v@);
        assert(out@ + dedup_adj(v@) =~= dedup_adj(v@));
        lemma_dedup_len(v@);
    }
    while i < v.len()
        invariant
            0 <= i <= v.len(),
            out@ + dedup_adj(v@.skip(i as int)) == dedup_adj(v@),
            out.len() + dedup_adj(v@.skip(i as int)).len() == dedup_adj(v@).len(),
            dedup_adj(v@).len() <= v.len(),
        decreases v.len() - i,
    {
        proof {
            assert(v@.skip(i as int)[0] == v@[i as int]);
            assert(v@.skip(i as int).drop_first() =~= v@.skip(i as int + 1));
            if i + 1 < v.len() {
                assert(v@.skip(i as int)[1] == v@[i as int + 1]);
            }
        }
        let ghost old_out = out@;
        let keep = if i + 1 < v.len() {
            !crate::point_time::pt_eq_x(&v[i], &v[i + 1])
        } else {
            true
        };
        if keep {
            let p = PointTime {
                year: v[i].year,
                month: v[i].month,
                day: v[i].day,
                hour: v[i].hour,
                min: v[i].min,
                sec: v[i].sec,
            };
            proof {
                assert(p == v@[i as int]);
            }
            out.push(p);
            proof {
                let rest = dedup_adj(v@.skip(i as int + 1));
                if i + 1 < v.len() {
                    assert(dedup_adj(v@.skip(i as int)) == seq![v@[i as int]] + rest);
                } else {
                    assert(v@.skip(i as int).len() == 1);
                    assert(v@.skip(i as int + 1) =~= Seq::<PointTime>::empty());
                    assert(dedup_adj(v@.skip(i as int)) =~= seq![v@[i as int]]);
                    assert(seq![v@[i as int]] =~= seq![v@[i as int]] + rest);
                }
                assert(out@ =~= old_out + seq![p]);
                assert((old_out + seq![p]) + rest =~= old_out + (seq![p] + rest));
            }
        }
        i = i + 1;
    }
    proof {
        assert(v@.skip(i as int) =~= Seq::<PointTime>::empty());
        assert(out@ + Seq::<PointTime>::empty() =~= out@);
    }
    out
}

proof fn lemma_dedup_len(s: Seq<PointTime>)
    ensures
        dedup_adj(s).len() <= s.len(),
    decreases s.len(),
{
    if s.len() > 1 {
        lemma_dedup_len(s.drop_first());
    }
}

impl RRuleSet {
    /// Whether `all` is bound to return nothing: no start or no rule, no
    /// bound (neither count nor until), a start past the until bound, an
    /// unproductive frequency, or inputs outside the calendar.
    pub open spec fn returns_empty(self) -> bool {
        ||| self.start_point_time is None
        ||| self.rrule.len() == 0
        ||| (self.primary().count == 0 && self.primary().until is None)
        ||| (self.primary().count == 0 && pt_lt(
            self.primary().until.unwrap(),
            self.start_point_time.unwrap(),
        ))
        ||| self.primary().freq is Hourly
        ||| self.primary().freq is Minutely
        ||| self.primary().freq is Secondly
        ||| !self.expand_wf()
    }

    /// The expansion of the primary rule, by its frequency.
    pub open spec fn expanded_spec(self) -> Seq<PointTime> {
        match self.primary().freq {
            Frequency::Yearly => self.yearly_spec(),
            Frequency::Monthly => self.monthly_spec(),
            Frequency::Weekly => self.weekly_spec(),
            Frequency::Daily => self.daily_spec(),
            _ => Seq::empty(),
        }
    }

    /// What `all` returns when something is returned: the expansion, clipped
    /// to the `between` window, sorted, and with duplicates removed.
    pub open spec fn all_result(self) -> Seq<PointTime> {
        dedup_adj(
            filter_window(self.expanded_spec(), self.between_start, self.between_end).sort_by(
                pt_leq(),
            ),
        )
    }

    /// Materializes the rule set: the occurrences of the primary rule inside
    /// the window, strictly ascending and free of duplicates, never more
    /// than `COUNT` of them, and none past the `UNTIL` civil time.
    pub fn all(&self) -> (r: Vec<PointTime>)
        ensures
            self.returns_empty() ==> r@ == Seq::<PointTime>::empty(),
            !self.returns_empty() ==> r@ == self.all_result(),
            forall|i: int, j: int| 0 <= i < j < r@.len() ==> pt_lt(#[trigger] r@[i], #[trigger] r@[j]),
            self.rrule.len() > 0 && self.primary().count > 0 ==> r@.len() <= self.primary().count,
    {
        let empty_ok: Vec<PointTime> = Vec::new();
        proof {
            assert(empty_ok@ =~= Seq::<PointTime>::empty());
        }
        let start_missing = match &self.start_point_time {
            Some(_) => false,
            None => true,
        };
        if start_missing {
            return empty_ok;
        }
        if self.rrule.len() == 0 {
            return empty_ok;
        }
        let rule = &self.rrule[0];
        if rule.count == 0 {
            match &rule.until {
                None => {
                    return empty_ok;
                },
                Some(u) => {
                    let start = match &self.start_point_time {
                        Some(p) => p,
                        None => {
                            return empty_ok;
                        },
                    };
                    if pt_lt_x(u, start) {
                        return empty_ok;
                    }
                },
            }
        }
        if !self.expand_ready() {
            return empty_ok;
        }
        let expanded: Vec<PointTime> = match rule.freq {
            Frequency::Yearly => match self.expand_by_year() {
                Ok(v) => v,
                Err(_) => Vec::new(),
            },
            Frequency::Monthly => match self.expand_by_month() {
                Ok(v) => v,
                Err(_) => Vec::new(),
            },
            Frequency::Weekly => match self.expand_by_week() {
                Ok(v) => v,
                Err(_) => Vec::new(),
            },
            Frequency::Daily => match self.expand_by_day() {
                Ok(v) => v,
                Err(_) => Vec::new(),
            },
            _ => {
                return empty_ok;
            },
        };
        proof {
            assert(expanded@ == self.expanded_spec());
            broadcast use vstd::seq_lib::group_to_multiset_ensures;

            lemma_date_le_total();
            if self.primary().freq is Monthly && !self.monthly_is_simple() {
                let start_pt = self.start_point_time.unwrap();
                let base = truncated(
                    monthly_compound(
                        self.primary(),
                        ym_index(start_pt.year as int, start_pt.month as int),
                        start_pt.date_of(),
                        self.end_date_incl(),
                        self.step_len(),
                    ),
                    self.max_len(),
                );
                base.lemma_sort_by_ensures(date_leq());
                assert(base.sort_by(date_leq()).to_multiset() =~= base.to_multiset());
                assert(base.sort_by(date_leq()).to_multiset().len() == base.sort_by(
                    date_leq(),
                ).len());
                assert(base.to_multiset().len() == base.len());
                assert(base.sort_by(date_leq()).len() == base.len());
            }
            assert(self.expanded_spec().len() <= self.max_len());
        }
        let filtered = filter_window_x(expanded, &self.between_start, &self.between_end);
        let ghost fv = filtered@;
        let sorted = sort_points_x(filtered);
        proof {
            lemma_pt_le_total();
            fv.lemma_sort_by_ensures(pt_leq());
        }
        let deduped = dedup_sorted_pts(sorted);
        proof {
            lemma_dedup_adj(sorted@);
        }
        deduped
    }
}


impl RRuleSet {
    /// The horizon used when neither `COUNT` nor `UNTIL` bounds a rule.
    pub open spec fn max_horizon() -> PointTime {
        PointTime { year: 2300, month: 1, day: 1, hour: 0, min: 0, sec: 0 }
    }

    /// Reads a whole rule text: an optional `DTSTART[;TZID=zone]:timestamp`
    /// line, then one `RRULE:` line. Fails exactly when a `DTSTART` line is
    /// present but unreadable.
    pub fn from_str(s: &str) -> (r: Result<RRuleSet, String>)
        ensures
            ({
                let lines = split_ch(s@, '\n');
                match r {
                    Ok(set) => {
                        &&& set.max_until_time == Self::max_horizon()
                        &&& set.between_start is None && set.between_end is None
                        &&& set.rrule@.len() == 1
                        &&& if lines.len() == 2 {
                            match crate::rrule::dt_start_line_spec(lines[0]) {
                                Some((pt, tz)) => {
                                    &&& set.start_point_time == Some(pt)
                                    &&& set.tz@ == match tz {
                                        Some(z) => z,
                                        None => "UTC"@,
                                    }
                                    &&& set.rrule@[0]@ == crate::rrule::rrule_str_view(lines[1])
                                },
                                None => false,
                            }
                        } else {
                            &&& set.start_point_time is None
                            &&& set.tz@ == "UTC"@
                            &&& set.rrule@[0]@ == crate::rrule::rrule_str_view(lines[0])
                        }
                    },
                    Err(_) => lines.len() == 2 && crate::rrule::dt_start_line_spec(
                        lines[0],
                    ) is None,
                }
            }),
    {
        let lines = split_str(s, '\n');
        let max_until_time = PointTime { year: 2300, month: 1, day: 1, hour: 0, min: 0, sec: 0 };
        if lines.len() == 2 {
            proof {
                assert(lines@[0]@ == split_ch(s@, '\n')[0]);
                assert(lines@[1]@ == split_ch(s@, '\n')[1]);
            }
            let (start, tz2) = match crate::rrule::parse_dt_strart_str_and_tz(lines[0].as_str()) {
                Ok(p) => p,
                Err(e) => {
                    return Err(e);
                },
            };
            let tz: String = match tz2 {
                Some(z) => z,
                None => <String as StringExecFns>::from_str("UTC"),
            };
            let rrule = RRule::from_str(lines[1].as_str());
            let mut rules: Vec<RRule> = Vec::new();
            rules.push(rrule);
            Ok(
                RRuleSet {
                    rrule: rules,
                    tz,
                    start_point_time: Some(start),
                    max_until_time,
                    between_start: None,
                    between_end: None,
                },
            )
        } else {
            proof {
                assert(lines@[0]@ == split_ch(s@, '\n')[0]);
            }
            let rrule = RRule::from_str(lines[0].as_str());
            let mut rules: Vec<RRule> = Vec::new();
            rules.push(rrule);
            Ok(
                RRuleSet {
                    rrule: rules,
                    tz: <String as StringExecFns>::from_str("UTC"),
                    start_point_time: None,
                    max_until_time,
                    between_start: None,
                    between_end: None,
                },
            )
        }
    }

    /// Appends one more `RRULE:` line to the set.
    pub fn add_rrule(&mut self, rrule: &str)
        ensures
            final(self).rrule@.len() == old(self).rrule@.len() + 1,
            final(self).rrule@.last()@ == crate::rrule::rrule_str_view(rrule@),
            forall|i: int|
                0 <= i < old(self).rrule@.len() ==> final(self).rrule@[i] == old(self).rrule@[i],
            final(self).tz == old(self).tz && final(self).start_point_time == old(self).start_point_time && final(self).max_until_time == old(self).max_until_time && final(self).between_start == old(self).between_start && final(self).between_end == old(self).between_end,
    {
        self.rrule.push(RRule::from_str(rrule))
    }

    /// Replaces the start civil time when the string parses; otherwise
    /// leaves the set unchanged.
    pub fn set_dt_start(&mut self, str: &str)
        ensures
            crate::point_time::civil_str_fault(str@) == 7 ==> *final(self) == (RRuleSet {
                start_point_time: Some(crate::point_time::civil_str_value(str@)),
                ..*old(self)
            }),
            crate::point_time::civil_str_fault(str@) != 7 ==> *final(self) == *old(self),
    {
        match crate::point_time::parse_ymdhms(str) {
            Ok(point_time) => {
                self.start_point_time = Some(point_time);
            },
            Err(_) => {},
        }
    }

    /// Replaces the zone when the name is a known IANA zone; otherwise
    /// leaves the set unchanged.
    pub fn tz(&mut self, tz: &str)
        ensures
            zone_name_ok(tz@) ==> final(self).tz@ == tz@ && final(self).rrule == old(self).rrule
                && final(self).start_point_time == old(self).start_point_time && final(self).max_until_time == old(self).max_until_time && final(self).between_start == old(self).between_start && final(self).between_end == old(self).between_end,
            !zone_name_ok(tz@) ==> *final(self) == *old(self),
    {
        if tz_name_valid(tz) {
            self.tz = tz.to_owned();
        }
    }

    /// Replaces the primary rule's count; without a rule nothing happens.
    pub fn set_count(&mut self, count: u32)
        ensures
            old(self).rrule@.len() == 0 ==> *final(self) == *old(self),
            old(self).rrule@.len() > 0 ==> final(self).rrule@ == old(self).rrule@.update(
                0,
                RRule { count, ..old(self).rrule@[0] },
            ) && final(self).tz == old(self).tz && final(self).start_point_time == old(self).start_point_time && final(self).max_until_time == old(self).max_until_time && final(self).between_start == old(self).between_start && final(self).between_end == old(self).between_end,
    {
        if self.rrule.len() == 0 {
            return ;
        }
        let mut first = self.rrule.remove(0);
        first.set_count(count);
        let ghost removed = self.rrule@;
        self.rrule.insert(0, first);
        proof {
            assert(self.rrule@ =~= old(self).rrule@.update(
                0,
                RRule { count, ..old(self).rrule@[0] },
            ));
        }
    }

    /// Replaces the primary rule's `until` when the string parses; without a
    /// rule, or with an unreadable string, nothing happens.
    pub fn set_until(&mut self, str: &str)
        ensures
            old(self).rrule@.len() == 0 ==> *final(self) == *old(self),
            old(self).rrule@.len() > 0 && crate::point_time::civil_str_fault(str@) != 7 ==> *final(self) == *old(self),
            old(self).rrule@.len() > 0 && crate::point_time::civil_str_fault(str@) == 7 ==> final(self).rrule@ == old(self).rrule@.update(
                0,
                RRule {
                    until: Some(crate::point_time::civil_str_value(str@)),
                    ..old(self).rrule@[0]
                },
            ) && final(self).tz == old(self).tz && final(self).start_point_time == old(self).start_point_time && final(self).max_until_time == old(self).max_until_time && final(self).between_start == old(self).between_start && final(self).between_end == old(self).between_end,
    {
        if self.rrule.len() == 0 {
            return ;
        }
        let point = match crate::point_time::parse_ymdhms(str) {
            Ok(p) => p,
            Err(_) => {
                return ;
            },
        };
        let mut first = self.rrule.remove(0);
        first.until = Some(point);
        self.rrule.insert(0, first);
        proof {
            assert(self.rrule@ =~= old(self).rrule@.update(
                0,
                RRule {
                    until: Some(crate::point_time::civil_str_value(str@)),
                    ..old(self).rrule@[0]
                },
            ));
        }
    }

    /// Sets the post-filter window from two civil-time strings; when either
    /// fails to parse, the window is left as it was.
    pub fn between(&mut self, start: &str, end: &str)
        ensures
            ({
                let fs = crate::point_time::civil_str_fault(start@);
                let fe = crate::point_time::civil_str_fault(end@);
                if fs == 7 && fe == 7 {
                    *final(self) == (RRuleSet {
                        between_start: Some(crate::point_time::civil_str_value(start@)),
                        between_end: Some(crate::point_time::civil_str_value(end@)),
                        ..*old(self)
                    })
                } else {
                    *final(self) == *old(self)
                }
            }),
    {
        let s = crate::point_time::parse_ymdhms(start);
        let e = crate::point_time::parse_ymdhms(end);
        match (s, e) {
            (Ok(sp), Ok(ep)) => {
                self.between_start = Some(sp);
                self.between_end = Some(ep);
            },
            _ => {},
        }
    }

    /// What `all` returns, as a single sequence.
    pub open spec fn all_points_spec(self) -> Seq<PointTime> {
        if self.returns_empty() {
            Seq::<PointTime>::empty()
        } else {
            self.all_result()
        }
    }

    /// The occurrences as Unix millisecond timestamps in the set's zone:
    /// `None` when any occurrence cannot be bound to the zone (an unknown
    /// name or a daylight-saving gap).
    pub fn all_unix_millis(&self) -> (r: Option<Vec<i64>>)
        ensures
            ({
                let pts = self.all_points_spec();
                match r {
                    Some(v) => v@.len() == pts.len() && forall|k: int|
                        0 <= k < pts.len() ==> zoned_unix_millis(
                            pts[k].year as int,
                            pts[k].month as int,
                            pts[k].day as int,
                            pts[k].hour as int,
                            pts[k].min as int,
                            pts[k].sec as int,
                            self.tz@,
                        ) == Some(#[trigger] v@[k] as int),
                    None => exists|k: int|
                        0 <= k < pts.len() && zoned_unix_millis(
                            (#[trigger] pts[k]).year as int,
                            pts[k].month as int,
                            pts[k].day as int,
                            pts[k].hour as int,
                            pts[k].min as int,
                            pts[k].sec as int,
                            self.tz@,
                        ) is None,
                }
            }),
    {
        let pts = self.all();
        let mut out: Vec<i64> = Vec::new();
        let mut i: usize = 0;
        while i < pts.len()
            invariant
                pts@ == self.all_points_spec(),
                0 <= i <= pts.len(),
                out@.len() == i,
                forall|k: int|
                    0 <= k < i ==> zoned_unix_millis(
                        pts@[k].year as int,
                        pts@[k].month as int,
                        pts@[k].day as int,
                        pts@[k].hour as int,
                        pts@[k].min as int,
                        pts@[k].sec as int,
                        self.tz@,
                    ) == Some(#[trigger] out@[k] as int),
            decreases pts.len() - i,
        {
            match pts[i].with_timezone(self.tz.as_str()) {
                Some(v) => {
                    out.push(v);
                },
                None => {
                    proof {
                        let spts = self.all_points_spec();
                        assert(spts[i as int] == pts@[i as int]);
                        assert(zoned_unix_millis(
                            spts[i as int].year as int,
                            spts[i as int].month as int,
                            spts[i as int].day as int,
                            spts[i as int].hour as int,
                            spts[i as int].min as int,
                            spts[i as int].sec as int,
                            self.tz@,
                        ) is None);
                        assert(exists|k: int|
                            0 <= k < spts.len() && zoned_unix_millis(
                                (#[trigger] spts[k]).year as int,
                                spts[k].month as int,
                                spts[k].day as int,
                                spts[k].hour as int,
                                spts[k].min as int,
                                spts[k].sec as int,
                                self.tz@,
                            ) is None);
                    }
                    return None;
                },
            }
            i = i + 1;
        }
        Some(out)
    }
}


// ---------------------------------------------------------------------------
// Where the candidates lie: every stage keeps its dates inside the window
// it was given. These feed the bound laws below.
// ---------------------------------------------------------------------------

pub proof fn lemma_push_front_in_range(d: Date, rest: Seq<Date>, lo: Date, hi: Date)
    requires
        in_range(d, lo, hi),
        forall|k: int| 0 <= k < rest.len() ==> in_range(#[trigger] rest[k], lo, hi),
    ensures
        forall|k: int|
            0 <= k < (seq![d] + rest).len() ==> in_range(#[trigger] (seq![d] + rest)[k], lo, hi),
{
    assert forall|k: int| 0 <= k < (seq![d] + rest).len() implies in_range(
        #[trigger] (seq![d] + rest)[k],
        lo,
        hi,
    ) by {
        if k >= 1 {
            assert((seq![d] + rest)[k] == rest[k - 1]);
        } else {
            assert((seq![d] + rest)[0] == d);
        }
    };
}

pub proof fn lemma_concat_in_range(a: Seq<Date>, b: Seq<Date>, lo: Date, hi: Date)
    requires
        forall|k: int| 0 <= k < a.len() ==> in_range(#[trigger] a[k], lo, hi),
        forall|k: int| 0 <= k < b.len() ==> in_range(#[trigger] b[k], lo, hi),
    ensures
        forall|k: int| 0 <= k < (a + b).len() ==> in_range(#[trigger] (a + b)[k], lo, hi),
{
    assert forall|k: int| 0 <= k < (a + b).len() implies in_range(#[trigger] (a + b)[k], lo, hi) by {
        if k >= a.len() {
            assert((a + b)[k] == b[k - a.len()]);
        } else {
            assert((a + b)[k] == a[k]);
        }
    };
}

pub proof fn lemma_year_day_dates_elems(list: Seq<int>, y: int, lo: Date, hi: Date)
    ensures
        forall|k: int|
            0 <= k < year_day_dates(list, y, lo, hi).len() ==> in_range(
                #[trigger] year_day_dates(list, y, lo, hi)[k],
                lo,
                hi,
            ),
    decreases list.len(),
{
    if list.len() > 0 {
        lemma_year_day_dates_elems(list.drop_first(), y, lo, hi);
        let rest = year_day_dates(list.drop_first(), y, lo, hi);
        match nth_day_of_year_spec(y, list[0]) {
            Some(ord) => {
                let d = ordinal_to_date_spec(y, ord);
                if in_range(d, lo, hi) {
                    lemma_push_front_in_range(d, rest, lo, hi);
                    assert(year_day_dates(list, y, lo, hi) == seq![d] + rest);
                } else {
                    assert(year_day_dates(list, y, lo, hi) == rest);
                }
            },
            None => {
                assert(year_day_dates(list, y, lo, hi) == rest);
            },
        }
    }
}

pub proof fn lemma_month_day_dates_elems(list: Seq<int>, y: int, mo: int, lo: Date, hi: Date)
    ensures
        forall|k: int|
            0 <= k < month_day_dates(list, y, mo, lo, hi).len() ==> in_range(
                #[trigger] month_day_dates(list, y, mo, lo, hi)[k],
                lo,
                hi,
            ),
    decreases list.len(),
{
    if list.len() > 0 {
        lemma_month_day_dates_elems(list.drop_first(), y, mo, lo, hi);
        let rest = month_day_dates(list.drop_first(), y, mo, lo, hi);
        match nth_day_of_month_spec(y, mo, list[0]) {
            Some(day) => {
                let d = Date { year: y as i32, month: mo as u32, day: day as u32 };
                if in_range(d, lo, hi) {
                    lemma_push_front_in_range(d, rest, lo, hi);
                    assert(month_day_dates(list, y, mo, lo, hi) == seq![d] + rest);
                } else {
                    assert(month_day_dates(list, y, mo, lo, hi) == rest);
                }
            },
            None => {
                assert(month_day_dates(list, y, mo, lo, hi) == rest);
            },
        }
    }
}

pub proof fn lemma_weekno_week_elems(mon: Date, byday: Seq<NWeekday>, lo: Date, hi: Date, k: int)
    ensures
        forall|j: int|
            0 <= j < weekno_week(mon, byday, lo, hi, k).len() ==> in_range(
                #[trigger] weekno_week(mon, byday, lo, hi, k)[j],
                lo,
                hi,
            ),
    decreases 7 - k,
{
    if k < 7 {
        lemma_weekno_week_elems(mon, byday, lo, hi, k + 1);
        let rest = weekno_week(mon, byday, lo, hi, k + 1);
        let d = add_days_spec(mon, k as nat);
        if (byday.len() == 0 || byday_has_every(byday, wd_from_num(k))) && in_range(d, lo, hi) {
            lemma_push_front_in_range(d, rest, lo, hi);
            assert(weekno_week(mon, byday, lo, hi, k) == seq![d] + rest);
        } else {
            assert(weekno_week(mon, byday, lo, hi, k) == rest);
        }
    }
}

pub proof fn lemma_weekno_dates_elems(
    list: Seq<int>,
    byday: Seq<NWeekday>,
    y: int,
    lo: Date,
    hi: Date,
)
    ensures
        forall|k: int|
            0 <= k < weekno_dates(list, byday, y, lo, hi).len() ==> in_range(
                #[trigger] weekno_dates(list, byday, y, lo, hi)[k],
                lo,
                hi,
            ),
    decreases list.len(),
{
    if list.len() > 0 {
        lemma_weekno_dates_elems(list.drop_first(), byday, y, lo, hi);
        let rest = weekno_dates(list.drop_first(), byday, y, lo, hi);
        match monday_date_spec(y, list[0]) {
            Some(mon) => {
                lemma_weekno_week_elems(mon, byday, lo, hi, 0);
                lemma_concat_in_range(weekno_week(mon, byday, lo, hi, 0), rest, lo, hi);
                assert(weekno_dates(list, byday, y, lo, hi) == weekno_week(mon, byday, lo, hi, 0)
                    + rest);
            },
            None => {
                assert(weekno_dates(list, byday, y, lo, hi) == rest);
            },
        }
    }
}

pub proof fn lemma_filter_range_elems(s: Seq<Date>, lo: Date, hi: Date)
    ensures
        forall|k: int|
            0 <= k < filter_range(s, lo, hi).len() ==> in_range(
                #[trigger] filter_range(s, lo, hi)[k],
                lo,
                hi,
            ),
    decreases s.len(),
{
    if s.len() > 0 {
        lemma_filter_range_elems(s.drop_first(), lo, hi);
        let rest = filter_range(s.drop_first(), lo, hi);
        if in_range(s[0], lo, hi) {
            lemma_push_front_in_range(s[0], rest, lo, hi);
            assert(filter_range(s, lo, hi) == seq![s[0]] + rest);
        } else {
            assert(filter_range(s, lo, hi) == rest);
        }
    }
}

pub proof fn lemma_byday_month_dates_elems(
    by_day: Seq<NWeekday>,
    y: int,
    mo: int,
    lo: Date,
    hi: Date,
)
    ensures
        forall|k: int|
            0 <= k < byday_month_dates(by_day, y, mo, lo, hi).len() ==> in_range(
                #[trigger] byday_month_dates(by_day, y, mo, lo, hi)[k],
                lo,
                hi,
            ),
    decreases by_day.len(),
{
    if by_day.len() > 0 {
        lemma_byday_month_dates_elems(by_day.drop_first(), y, mo, lo, hi);
        let rest = byday_month_dates(by_day.drop_first(), y, mo, lo, hi);
        let cur = match by_day[0] {
            NWeekday::Every(w) => filter_range(
                weekdays_in_month_spec(y, mo, w.num_spec()),
                lo,
                hi,
            ),
            NWeekday::Nth(n, w) => match nth_weekday_of_month_spec(y, mo, w.num_spec(), n as int) {
                Some(d) => if in_range(d, lo, hi) {
                    seq![d]
                } else {
                    Seq::<Date>::empty()
                },
                None => Seq::<Date>::empty(),
            },
        };
        match by_day[0] {
            NWeekday::Every(w) => {
                lemma_filter_range_elems(weekdays_in_month_spec(y, mo, w.num_spec()), lo, hi);
            },
            NWeekday::Nth(_, _) => {},
        }
        assert(forall|k: int| 0 <= k < cur.len() ==> in_range(#[trigger] cur[k], lo, hi));
        lemma_concat_in_range(cur, rest, lo, hi);
        assert(byday_month_dates(by_day, y, mo, lo, hi) == cur + rest);
    }
}

/// A subset of dates all inside a window is inside it too.
pub proof fn lemma_in_range_transfer(sub: Seq<Date>, sup: Seq<Date>, lo: Date, hi: Date)
    requires
        forall|k: int| 0 <= k < sub.len() ==> sup.contains(#[trigger] sub[k]),
        forall|k: int| 0 <= k < sup.len() ==> in_range(#[trigger] sup[k], lo, hi),
    ensures
        forall|k: int| 0 <= k < sub.len() ==> in_range(#[trigger] sub[k], lo, hi),
{
    assert forall|k: int| 0 <= k < sub.len() implies in_range(#[trigger] sub[k], lo, hi) by {
        assert(sup.contains(sub[k]));
        let j = choose|j: int| 0 <= j < sup.len() && sup[j] == sub[k];
    };
}

pub proof fn lemma_intersect_subset(a: Seq<Date>, b: Seq<Date>, lo: Date, hi: Date)
    requires
        forall|k: int| 0 <= k < a.len() ==> in_range(#[trigger] a[k], lo, hi),
    ensures
        forall|k: int|
            0 <= k < intersect_dates(a, b).len() ==> in_range(
                #[trigger] intersect_dates(a, b)[k],
                lo,
                hi,
            ),
{
    lemma_intersect_elems(a, b);
    lemma_in_range_transfer(intersect_dates(a, b), a, lo, hi);
}

/// Sorting keeps the elements, so it keeps any window they lie in.
pub proof fn lemma_sort_in_range(s: Seq<Date>, lo: Date, hi: Date)
    requires
        forall|k: int| 0 <= k < s.len() ==> in_range(#[trigger] s[k], lo, hi),
    ensures
        forall|k: int|
            0 <= k < s.sort_by(date_leq()).len() ==> in_range(
                #[trigger] s.sort_by(date_leq())[k],
                lo,
                hi,
            ),
{
    broadcast use vstd::seq_lib::group_to_multiset_ensures;

    lemma_date_le_total();
    s.lemma_sort_by_ensures(date_leq());
    let r = s.sort_by(date_leq());
    assert forall|k: int| 0 <= k < r.len() implies in_range(#[trigger] r[k], lo, hi) by {
        assert(r.to_multiset().contains(r[k]));
        assert(s.to_multiset().contains(r[k]));
        assert(s.contains(r[k]));
        let j = choose|j: int| 0 <= j < s.len() && s[j] == r[k];
    };
}

/// One month's candidates lie inside the window they were built for.
pub proof fn lemma_month_dates_elems(rule: RRuleView, y: int, mo: int, lo: Date, hi: Date)
    ensures
        forall|k: int|
            0 <= k < month_dates(rule, y, mo, lo, hi).len() ==> in_range(
                #[trigger] month_dates(rule, y, mo, lo, hi)[k],
                lo,
                hi,
            ),
{
    let yd = year_day_dates(rule.by_year_day, y, lo, hi);
    let md = month_day_dates(rule.by_month_day, y, mo, lo, hi);
    let wk = weekno_dates(rule.by_week_no, Seq::empty(), y, lo, hi);
    let bd = byday_month_dates(rule.by_day, y, mo, lo, hi);
    lemma_year_day_dates_elems(rule.by_year_day, y, lo, hi);
    lemma_month_day_dates_elems(rule.by_month_day, y, mo, lo, hi);
    lemma_weekno_dates_elems(rule.by_week_no, Seq::empty(), y, lo, hi);
    lemma_byday_month_dates_elems(rule.by_day, y, mo, lo, hi);
    let l1: Seq<Date> = if rule.by_year_day.len() > 0 {
        yd
    } else {
        Seq::empty()
    };
    let l2 = if rule.by_month_day.len() == 0 {
        l1
    } else if l1.len() > 0 {
        intersect_dates(l1, md)
    } else {
        md
    };
    lemma_intersect_subset(l1, md, lo, hi);
    let l3 = if rule.by_week_no.len() == 0 {
        l2
    } else if l2.len() > 0 {
        intersect_dates(l2, wk)
    } else {
        wk
    };
    lemma_intersect_subset(l2, wk, lo, hi);
    let l4 = if rule.by_day.len() == 0 {
        l3
    } else if l3.len() > 0 {
        intersect_dates(l3, bd)
    } else {
        bd
    };
    lemma_intersect_subset(l3, bd, lo, hi);
    lemma_sort_in_range(month_dates_raw(rule, y, mo, lo, hi), lo, hi);
}

/// The compound monthly walk stays at or before the end date.
pub proof fn lemma_monthly_compound_elems(
    rule: RRuleView,
    ym: int,
    start_date: Date,
    end_date: Date,
    step: nat,
)
    ensures
        forall|k: int|
            0 <= k < monthly_compound(rule, ym, start_date, end_date, step).len() ==> (
            #[trigger] monthly_compound(rule, ym, start_date, end_date, step)[k]).le(end_date),
    decreases
            (if ym <= ym_index(end_date.year as int, end_date.month as int) {
                ym_index(end_date.year as int, end_date.month as int) + 1 - ym
            } else {
                0
            }),
{
    let y = ym / 12;
    let mo = ym % 12 + 1;
    let first = Date { year: y as i32, month: mo as u32, day: 1 };
    if step == 0 || ym < 0 || ym > 120_000 || !first.lt(end_date) {
    } else {
        vstd::arithmetic::div_mod::lemma_fundamental_div_mod(ym, 12);
        assert(y * 12 == ym - ym % 12) by (nonlinear_arith)
            requires y == ym / 12;
        let last = Date { year: y as i32, month: mo as u32, day: days_in_month(y, mo) as u32 };
        let lo = if first.lt(start_date) {
            start_date
        } else {
            first
        };
        let hi = if end_date.lt(last) {
            end_date
        } else {
            last
        };
        lemma_month_dates_elems(rule, y, mo, lo, hi);
        lemma_monthly_compound_elems(rule, ym + step, start_date, end_date, step);
        let cur = month_dates(rule, y, mo, lo, hi);
        let rest = monthly_compound(rule, ym + step, start_date, end_date, step);
        let whole = monthly_compound(rule, ym, start_date, end_date, step);
        assert(whole == cur + rest);
        assert forall|k: int| 0 <= k < whole.len() implies (#[trigger] whole[k]).le(end_date) by {
            if k < cur.len() {
                assert(in_range(cur[k], lo, hi));
                assert(cur[k].le(hi));
            } else {
                assert(whole[k] == rest[k - cur.len()]);
            }
        };
    }
}

/// The simple monthly walk stays at or before `end` and keeps the start's
/// day and time of day.
pub proof fn lemma_monthly_simple_elems(cur: PointTime, end: PointTime, step: nat)
    ensures
        forall|k: int|
            0 <= k < monthly_simple(cur, end, step).len() ==> pt_le(
                #[trigger] monthly_simple(cur, end, step)[k],
                end,
            ) && monthly_simple(cur, end, step)[k].hour == cur.hour && monthly_simple(
                cur,
                end,
                step,
            )[k].min == cur.min && monthly_simple(cur, end, step)[k].sec == cur.sec
                && pt_valid_date(monthly_simple(cur, end, step)[k]) && 0 <= monthly_simple(
                cur,
                end,
                step,
            )[k].year <= 100_000,
    decreases
            (if ym_index(cur.year as int, cur.month as int) <= ym_index(
                end.year as int,
                end.month as int,
            ) {
                ym_index(end.year as int, end.month as int) + 1 - ym_index(
                    cur.year as int,
                    cur.month as int,
                )
            } else {
                0
            }),
{
    if step == 0 || step > 4_294_967_295 || !pt_valid_date(cur) || !pt_le(cur, end) || cur.year < 0
        || cur.year > 100_000 {
    } else {
        lemma_add_month_spec(cur, step as int);
        let nxt = crate::point_time::add_month_spec(cur, step as int);
        lemma_monthly_simple_elems(nxt, end, step);
        let whole = monthly_simple(cur, end, step);
        let rest = monthly_simple(nxt, end, step);
        assert(whole == seq![cur] + rest);
        assert forall|k: int| 0 <= k < whole.len() implies pt_le(#[trigger] whole[k], end)
            && whole[k].hour == cur.hour && whole[k].min == cur.min && whole[k].sec == cur.sec
            && pt_valid_date(whole[k]) && 0 <= whole[k].year <= 100_000 by {
            if k >= 1 {
                assert(whole[k] == rest[k - 1]);
            }
        };
    }
}

pub proof fn lemma_plain_month_dates_elems(months: Seq<int>, y: int, day: int, lo: Date, hi: Date)
    ensures
        forall|k: int|
            0 <= k < plain_month_dates(months, y, day, lo, hi).len() ==> in_range(
                #[trigger] plain_month_dates(months, y, day, lo, hi)[k],
                lo,
                hi,
            ),
    decreases months.len(),
{
    if months.len() > 0 {
        lemma_plain_month_dates_elems(months.drop_first(), y, day, lo, hi);
        let rest = plain_month_dates(months.drop_first(), y, day, lo, hi);
        let m = months[0];
        if 1 <= m <= 12 && 1 <= day <= days_in_month(y, m) {
            let d = Date { year: y as i32, month: m as u32, day: day as u32 };
            if in_range(d, lo, hi) {
                lemma_push_front_in_range(d, rest, lo, hi);
                assert(plain_month_dates(months, y, day, lo, hi) == seq![d] + rest);
            } else {
                assert(plain_month_dates(months, y, day, lo, hi) == rest);
            }
        } else {
            assert(plain_month_dates(months, y, day, lo, hi) == rest);
        }
    }
}

pub proof fn lemma_ymd_months_elems(n: int, by_month: Seq<int>, y: int, mo: int, lo: Date, hi: Date)
    ensures
        forall|k: int|
            0 <= k < ymd_months(n, by_month, y, mo, lo, hi).len() ==> in_range(
                #[trigger] ymd_months(n, by_month, y, mo, lo, hi)[k],
                lo,
                hi,
            ),
    decreases 13 - mo,
{
    if mo <= 12 {
        lemma_ymd_months_elems(n, by_month, y, mo + 1, lo, hi);
        let rest = ymd_months(n, by_month, y, mo + 1, lo, hi);
        if by_month.len() == 0 || by_month.contains(mo) {
            match nth_day_of_month_spec(y, mo, n) {
                Some(day) => {
                    let d = Date { year: y as i32, month: mo as u32, day: day as u32 };
                    if in_range(d, lo, hi) {
                        lemma_push_front_in_range(d, rest, lo, hi);
                        assert(ymd_months(n, by_month, y, mo, lo, hi) == seq![d] + rest);
                    } else {
                        assert(ymd_months(n, by_month, y, mo, lo, hi) == rest);
                    }
                },
                None => {
                    assert(ymd_months(n, by_month, y, mo, lo, hi) == rest);
                },
            }
        } else {
            assert(ymd_months(n, by_month, y, mo, lo, hi) == rest);
        }
    }
}

pub proof fn lemma_year_month_day_dates_elems(
    list: Seq<int>,
    by_month: Seq<int>,
    y: int,
    lo: Date,
    hi: Date,
)
    ensures
        forall|k: int|
            0 <= k < year_month_day_dates(list, by_month, y, lo, hi).len() ==> in_range(
                #[trigger] year_month_day_dates(list, by_month, y, lo, hi)[k],
                lo,
                hi,
            ),
    decreases list.len(),
{
    if list.len() > 0 {
        lemma_ymd_months_elems(list[0], by_month, y, 1, lo, hi);
        lemma_year_month_day_dates_elems(list.drop_first(), by_month, y, lo, hi);
        lemma_concat_in_range(
            ymd_months(list[0], by_month, y, 1, lo, hi),
            year_month_day_dates(list.drop_first(), by_month, y, lo, hi),
            lo,
            hi,
        );
        assert(year_month_day_dates(list, by_month, y, lo, hi) == ymd_months(
            list[0],
            by_month,
            y,
            1,
            lo,
            hi,
        ) + year_month_day_dates(list.drop_first(), by_month, y, lo, hi));
    }
}

pub proof fn lemma_iso_week_wd_dates_elems(y: int, w: int, week: int, lo: Date, hi: Date)
    ensures
        forall|k: int|
            0 <= k < iso_week_wd_dates(y, w, week, lo, hi).len() ==> in_range(
                #[trigger] iso_week_wd_dates(y, w, week, lo, hi)[k],
                lo,
                hi,
            ),
    decreases 53 - week,
{
    if week <= 52 {
        lemma_iso_week_wd_dates_elems(y, w, week + 1, lo, hi);
        let rest = iso_week_wd_dates(y, w, week + 1, lo, hi);
        match monday_date_spec(y, week) {
            Some(mon) => {
                let d = add_days_spec(mon, w as nat);
                if in_range(d, lo, hi) {
                    lemma_push_front_in_range(d, rest, lo, hi);
                    assert(iso_week_wd_dates(y, w, week, lo, hi) == seq![d] + rest);
                } else {
                    assert(iso_week_wd_dates(y, w, week, lo, hi) == rest);
                }
            },
            None => {
                assert(iso_week_wd_dates(y, w, week, lo, hi) == rest);
            },
        }
    }
}

pub proof fn lemma_months_weekday_dates_elems(by_month: Seq<int>, y: int, w: int, lo: Date, hi: Date)
    ensures
        forall|k: int|
            0 <= k < months_weekday_dates(by_month, y, w, lo, hi).len() ==> in_range(
                #[trigger] months_weekday_dates(by_month, y, w, lo, hi)[k],
                lo,
                hi,
            ),
    decreases by_month.len(),
{
    if by_month.len() > 0 {
        lemma_months_weekday_dates_elems(by_month.drop_first(), y, w, lo, hi);
        let rest = months_weekday_dates(by_month.drop_first(), y, w, lo, hi);
        let m = by_month[0];
        if 1 <= m <= 12 {
            lemma_filter_range_elems(weekdays_in_month_spec(y, m, w), lo, hi);
            lemma_concat_in_range(
                filter_range(weekdays_in_month_spec(y, m, w), lo, hi),
                rest,
                lo,
                hi,
            );
            assert(months_weekday_dates(by_month, y, w, lo, hi) == filter_range(
                weekdays_in_month_spec(y, m, w),
                lo,
                hi,
            ) + rest);
        } else {
            assert(months_weekday_dates(by_month, y, w, lo, hi) == rest);
        }
    }
}

pub proof fn lemma_months_nth_weekday_dates_elems(
    by_month: Seq<int>,
    y: int,
    w: int,
    n: int,
    lo: Date,
    hi: Date,
)
    ensures
        forall|k: int|
            0 <= k < months_nth_weekday_dates(by_month, y, w, n, lo, hi).len() ==> in_range(
                #[trigger] months_nth_weekday_dates(by_month, y, w, n, lo, hi)[k],
                lo,
                hi,
            ),
    decreases by_month.len(),
{
    if by_month.len() > 0 {
        lemma_months_nth_weekday_dates_elems(by_month.drop_first(), y, w, n, lo, hi);
        let rest = months_nth_weekday_dates(by_month.drop_first(), y, w, n, lo, hi);
        let m = by_month[0];
        if 1 <= m <= 12 {
            match nth_weekday_of_month_spec(y, m, w, n) {
                Some(d) => {
                    if in_range(d, lo, hi) {
                        lemma_push_front_in_range(d, rest, lo, hi);
                        assert(months_nth_weekday_dates(by_month, y, w, n, lo, hi) == seq![d]
                            + rest);
                    } else {
                        assert(months_nth_weekday_dates(by_month, y, w, n, lo, hi) == rest);
                    }
                },
                None => {
                    assert(months_nth_weekday_dates(by_month, y, w, n, lo, hi) == rest);
                },
            }
        } else {
            assert(months_nth_weekday_dates(by_month, y, w, n, lo, hi) == rest);
        }
    }
}

pub proof fn lemma_year_byday_every_elems(
    by_day: Seq<NWeekday>,
    by_month: Seq<int>,
    y: int,
    lo: Date,
    hi: Date,
)
    ensures
        forall|k: int|
            0 <= k < year_byday_every(by_day, by_month, y, lo, hi).len() ==> in_range(
                #[trigger] year_byday_every(by_day, by_month, y, lo, hi)[k],
                lo,
                hi,
            ),
    decreases by_day.len(),
{
    if by_day.len() > 0 {
        lemma_year_byday_every_elems(by_day.drop_first(), by_month, y, lo, hi);
        let rest = year_byday_every(by_day.drop_first(), by_month, y, lo, hi);
        match by_day[0] {
            NWeekday::Every(w) => {
                lemma_iso_week_wd_dates_elems(y, w.num_spec(), 1, lo, hi);
                lemma_months_weekday_dates_elems(by_month, y, w.num_spec(), lo, hi);
                if by_month.len() == 0 {
                    lemma_concat_in_range(
                        iso_week_wd_dates(y, w.num_spec(), 1, lo, hi),
                        rest,
                        lo,
                        hi,
                    );
                    assert(year_byday_every(by_day, by_month, y, lo, hi) == iso_week_wd_dates(
                        y,
                        w.num_spec(),
                        1,
                        lo,
                        hi,
                    ) + rest);
                } else {
                    lemma_concat_in_range(
                        months_weekday_dates(by_month, y, w.num_spec(), lo, hi),
                        rest,
                        lo,
                        hi,
                    );
                    assert(year_byday_every(by_day, by_month, y, lo, hi) == months_weekday_dates(
                        by_month,
                        y,
                        w.num_spec(),
                        lo,
                        hi,
                    ) + rest);
                }
            },
            NWeekday::Nth(_, _) => {
                assert(year_byday_every(by_day, by_month, y, lo, hi) == rest);
            },
        }
    }
}

pub proof fn lemma_year_byday_nth_elems(
    by_day: Seq<NWeekday>,
    by_month: Seq<int>,
    y: int,
    lo: Date,
    hi: Date,
)
    ensures
        forall|k: int|
            0 <= k < year_byday_nth(by_day, by_month, y, lo, hi).len() ==> in_range(
                #[trigger] year_byday_nth(by_day, by_month, y, lo, hi)[k],
                lo,
                hi,
            ),
    decreases by_day.len(),
{
    if by_day.len() > 0 {
        lemma_year_byday_nth_elems(by_day.drop_first(), by_month, y, lo, hi);
        let rest = year_byday_nth(by_day.drop_first(), by_month, y, lo, hi);
        match by_day[0] {
            NWeekday::Nth(n, w) => {
                lemma_months_nth_weekday_dates_elems(by_month, y, w.num_spec(), n as int, lo, hi);
                if by_month.len() == 0 {
                    match nth_weekday_of_year_spec(y, w.num_spec(), n as int) {
                        Some(d) => {
                            if in_range(d, lo, hi) {
                                lemma_push_front_in_range(d, rest, lo, hi);
                                assert(year_byday_nth(by_day, by_month, y, lo, hi) == seq![d]
                                    + rest);
                            } else {
                                assert(year_byday_nth(by_day, by_month, y, lo, hi) == rest);
                            }
                        },
                        None => {
                            assert(year_byday_nth(by_day, by_month, y, lo, hi) == rest);
                        },
                    }
                } else {
                    lemma_concat_in_range(
                        months_nth_weekday_dates(by_month, y, w.num_spec(), n as int, lo, hi),
                        rest,
                        lo,
                        hi,
                    );
                    assert(year_byday_nth(by_day, by_month, y, lo, hi)
                        == months_nth_weekday_dates(by_month, y, w.num_spec(), n as int, lo, hi)
                        + rest);
                }
            },
            NWeekday::Every(_) => {
                assert(year_byday_nth(by_day, by_month, y, lo, hi) == rest);
            },
        }
    }
}

pub proof fn lemma_filter_by_month_subset(s: Seq<Date>, by_month: Seq<int>, lo: Date, hi: Date)
    requires
        forall|k: int| 0 <= k < s.len() ==> in_range(#[trigger] s[k], lo, hi),
    ensures
        forall|k: int|
            0 <= k < filter_by_month(s, by_month).len() ==> in_range(
                #[trigger] filter_by_month(s, by_month)[k],
                lo,
                hi,
            ),
    decreases s.len(),
{
    if s.len() > 0 {
        assert(forall|k: int|
            0 <= k < s.drop_first().len() ==> in_range(#[trigger] s.drop_first()[k], lo, hi));
        lemma_filter_by_month_subset(s.drop_first(), by_month, lo, hi);
        let rest = filter_by_month(s.drop_first(), by_month);
        if by_month.contains(s[0].month as int) {
            lemma_push_front_in_range(s[0], rest, lo, hi);
            assert(filter_by_month(s, by_month) == seq![s[0]] + rest);
        } else {
            assert(filter_by_month(s, by_month) == rest);
        }
    }
}

pub proof fn lemma_filter_every_wd_subset(s: Seq<Date>, by_day: Seq<NWeekday>, lo: Date, hi: Date)
    requires
        forall|k: int| 0 <= k < s.len() ==> in_range(#[trigger] s[k], lo, hi),
    ensures
        forall|k: int|
            0 <= k < filter_every_wd(s, by_day).len() ==> in_range(
                #[trigger] filter_every_wd(s, by_day)[k],
                lo,
                hi,
            ),
    decreases s.len(),
{
    if s.len() > 0 {
        assert(forall|k: int|
            0 <= k < s.drop_first().len() ==> in_range(#[trigger] s.drop_first()[k], lo, hi));
        lemma_filter_every_wd_subset(s.drop_first(), by_day, lo, hi);
        let rest = filter_every_wd(s.drop_first(), by_day);
        if every_has_wd(by_day, s[0].wd()) {
            lemma_push_front_in_range(s[0], rest, lo, hi);
            assert(filter_every_wd(s, by_day) == seq![s[0]] + rest);
        } else {
            assert(filter_every_wd(s, by_day) == rest);
        }
    }
}

/// One year's candidates lie inside the window they were built for.
pub proof fn lemma_year_dates_elems(rule: RRuleView, y: int, lo: Date, hi: Date, start: PointTime)
    ensures
        forall|k: int|
            0 <= k < year_dates(rule, y, lo, hi, start).len() ==> in_range(
                #[trigger] year_dates(rule, y, lo, hi, start)[k],
                lo,
                hi,
            ),
{
    let months: Seq<int> = if rule.by_month.len() == 0 {
        seq![start.month as int]
    } else {
        rule.by_month
    };
    lemma_plain_month_dates_elems(months, y, start.day as int, lo, hi);
    let yd = year_day_dates(rule.by_year_day, y, lo, hi);
    let md = year_month_day_dates(rule.by_month_day, rule.by_month, y, lo, hi);
    let wk = weekno_dates(rule.by_week_no, rule.by_day, y, lo, hi);
    lemma_year_day_dates_elems(rule.by_year_day, y, lo, hi);
    lemma_year_month_day_dates_elems(rule.by_month_day, rule.by_month, y, lo, hi);
    lemma_weekno_dates_elems(rule.by_week_no, rule.by_day, y, lo, hi);
    let l1: Seq<Date> = if rule.by_year_day.len() > 0 {
        yd
    } else {
        Seq::empty()
    };
    let l2 = if rule.by_month_day.len() == 0 {
        l1
    } else if l1.len() > 0 {
        intersect_dates(l1, md)
    } else {
        md
    };
    lemma_intersect_subset(l1, md, lo, hi);
    let l2b = if rule.by_month.len() > 0 && l2.len() > 0 {
        filter_by_month(l2, rule.by_month)
    } else {
        l2
    };
    lemma_filter_by_month_subset(l2, rule.by_month, lo, hi);
    let l3 = if rule.by_week_no.len() == 0 {
        l2b
    } else if l2b.len() > 0 {
        intersect_dates(l2b, wk)
    } else {
        wk
    };
    lemma_intersect_subset(l2b, wk, lo, hi);
    let l3b = if l3.len() > 0 && has_every(rule.by_day) {
        filter_every_wd(l3, rule.by_day)
    } else {
        l3
    };
    lemma_filter_every_wd_subset(l3, rule.by_day, lo, hi);
    let bd = year_byday_nth(rule.by_day, rule.by_month, y, lo, hi) + year_byday_every(
        rule.by_day,
        rule.by_month,
        y,
        lo,
        hi,
    );
    lemma_year_byday_nth_elems(rule.by_day, rule.by_month, y, lo, hi);
    lemma_year_byday_every_elems(rule.by_day, rule.by_month, y, lo, hi);
    assert(forall|k: int| 0 <= k < bd.len() ==> in_range(#[trigger] bd[k], lo, hi));
    let l4 = if l3b.len() > 0 {
        intersect_dates(l3b, bd)
    } else {
        bd
    };
    lemma_intersect_subset(l3b, bd, lo, hi);
    lemma_sort_in_range(year_dates_raw(rule, y, lo, hi, start), lo, hi);
}

/// The yearly walk stays at or before the end date.
pub proof fn lemma_yearly_years_elems(
    rule: RRuleView,
    y: int,
    start_date: Date,
    end_date: Date,
    start: PointTime,
    step: nat,
)
    ensures
        forall|k: int|
            0 <= k < yearly_years(rule, y, start_date, end_date, start, step).len() ==> (
            #[trigger] yearly_years(rule, y, start_date, end_date, start, step)[k]).le(end_date),
    decreases
            (if y <= end_date.year {
                end_date.year + 1 - y
            } else {
                0
            }),
{
    if step == 0 || y > end_date.year as int || y < 0 || y > 10_000 {
    } else {
        let jan1 = Date { year: y as i32, month: 1, day: 1 };
        let dec31 = Date { year: y as i32, month: 12, day: 31 };
        let lo = if jan1.lt(start_date) {
            start_date
        } else {
            jan1
        };
        let hi = if end_date.lt(dec31) {
            end_date
        } else {
            dec31
        };
        lemma_year_dates_elems(rule, y, lo, hi, start);
        lemma_yearly_years_elems(rule, y + step, start_date, end_date, start, step);
        let cur = year_dates(rule, y, lo, hi, start);
        let rest = yearly_years(rule, y + step, start_date, end_date, start, step);
        let whole = yearly_years(rule, y, start_date, end_date, start, step);
        assert(whole == cur + rest);
        assert forall|k: int| 0 <= k < whole.len() implies (#[trigger] whole[k]).le(end_date) by {
            if k < cur.len() {
                assert(in_range(cur[k], lo, hi));
                assert(cur[k].le(hi));
            } else {
                assert(whole[k] == rest[k - cur.len()]);
            }
        };
    }
}


pub proof fn lemma_filter_window_subset(s: Seq<PointTime>, bs: Option<PointTime>, be: Option<
    PointTime,
>)
    ensures
        forall|k: int|
            0 <= k < filter_window(s, bs, be).len() ==> s.contains(
                #[trigger] filter_window(s, bs, be)[k],
            ),
    decreases s.len(),
{
    if s.len() > 0 {
        lemma_filter_window_subset(s.drop_first(), bs, be);
        let rest = filter_window(s.drop_first(), bs, be);
        assert forall|k: int| 0 <= k < filter_window(s, bs, be).len() implies s.contains(
            #[trigger] filter_window(s, bs, be)[k],
        ) by {
            let r = filter_window(s, bs, be);
            let kr = if window_admits(s[0], bs, be) {
                k - 1
            } else {
                k
            };
            if window_admits(s[0], bs, be) && k == 0 {
                assert(r[0] == s[0]);
            } else {
                assert(r[k] == rest[kr]);
                assert(s.drop_first().contains(rest[kr]));
                let j = choose|j: int| 0 <= j < s.drop_first().len() && s.drop_first()[j]
                    == rest[kr];
                assert(s[j + 1] == rest[kr]);
            }
        };
    }
}

impl RRuleSet {
    /// Every occurrence of the expansion carries the start's time of day and
    /// never falls on a later date than `until`.
    pub proof fn lemma_expanded_bounded(self)
        requires
            self.rrule@.len() > 0,
            self.start_point_time is Some,
            !self.returns_empty(),
        ensures
            forall|k: int|
                0 <= k < self.expanded_spec().len() ==> {
                    let p = #[trigger] self.expanded_spec()[k];
                    let s = self.start_point_time.unwrap();
                    &&& p.hour == s.hour && p.min == s.min && p.sec == s.sec
                    &&& p.date_of().le(self.end_date_incl())
                },
    {
        let s = self.start_point_time.unwrap();
        let e = self.end_point();
        let end_date = self.end_date_incl();
        let rule = self.primary();
        assert(self.expand_wf());
        self.lemma_end_date_incl();
        assert(end_date.wf());
        let end_dn = end_date.dn();
        assert forall|k: int| 0 <= k < self.expanded_spec().len() implies {
            let p = #[trigger] self.expanded_spec()[k];
            &&& p.hour == s.hour && p.min == s.min && p.sec == s.sec
            &&& p.date_of().le(end_date)
        } by {
            let p = self.expanded_spec()[k];
            match rule.freq {
                Frequency::Daily => {
                    let ds = daily_dates(rule, s.date_of(), end_dn, 0, self.step_len());
                    lemma_daily_dates_elems(rule, s.date_of(), end_dn, 0, self.step_len());
                    let cut = truncated(ds, self.max_len());
                    assert(cut[k] == ds[k]);
                    assert(p == s.with_date(ds[k]));
                    let d = ds[k];
                    assert(d.wf() && d.dn() <= end_dn);
                    if end_date.lt(d) {
                        lemma_dn_mono(end_date, d);
                    }
                },
                Frequency::Weekly => {
                    let ds = weekly_dates(
                        rule,
                        s.date_of().wd(),
                        s.date_of(),
                        end_dn,
                        0,
                        self.step_len(),
                    );
                    lemma_weekly_dates_elems(
                        rule,
                        s.date_of().wd(),
                        s.date_of(),
                        end_dn,
                        0,
                        self.step_len(),
                    );
                    let cut = truncated(ds, self.max_len());
                    assert(cut[k] == ds[k]);
                    assert(p == s.with_date(ds[k]));
                    let d = ds[k];
                    assert(d.wf() && d.dn() <= end_dn);
                    if end_date.lt(d) {
                        lemma_dn_mono(end_date, d);
                    }
                },
                Frequency::Monthly => {
                    if self.monthly_is_simple() {
                        lemma_monthly_simple_elems(s, e, self.step_len());
                        let ms = monthly_simple(s, e, self.step_len());
                        let cut = truncated(ms, self.max_len());
                        assert(cut[k] == ms[k]);
                        assert(p == ms[k]);
                        assert(pt_le(p, e));
                        assert(p.date_of().wf());
                        if hms_le(s, e) {
                            assert(p.date_of().le(e.date_of()));
                        } else {
                            // on the end date itself the start's time of day
                            // would have to be admitted, against the case
                            assert(p.date_of() != e.date_of());
                            assert(p.date_of().lt(e.date_of()));
                            lemma_dn_mono(p.date_of(), e.date_of());
                            assert(p.date_of().dn() <= end_date.dn());
                            if end_date.lt(p.date_of()) {
                                lemma_dn_mono(end_date, p.date_of());
                            }
                            assert(p.date_of().le(end_date));
                        }
                    } else {
                        let base = truncated(
                            monthly_compound(
                                rule,
                                ym_index(s.year as int, s.month as int),
                                s.date_of(),
                                end_date,
                                self.step_len(),
                            ),
                            self.max_len(),
                        );
                        lemma_monthly_compound_elems(
                            rule,
                            ym_index(s.year as int, s.month as int),
                            s.date_of(),
                            end_date,
                            self.step_len(),
                        );
                        let mc = monthly_compound(
                            rule,
                            ym_index(s.year as int, s.month as int),
                            s.date_of(),
                            end_date,
                            self.step_len(),
                        );
                        assert(forall|j: int|
                            0 <= j < base.len() ==> (#[trigger] base[j]).le(end_date)) by {
                            assert(forall|j: int|
                                0 <= j < base.len() ==> base[j] == #[trigger] mc[j]);
                        };
                        broadcast use vstd::seq_lib::group_to_multiset_ensures;

                        lemma_date_le_total();
                        base.lemma_sort_by_ensures(date_leq());
                        let srt = base.sort_by(date_leq());
                        assert(p == s.with_date(srt[k]));
                        let d = srt[k];
                        assert(srt.to_multiset().contains(d));
                        assert(base.to_multiset().contains(d));
                        assert(base.contains(d));
                        let j = choose|j: int| 0 <= j < base.len() && base[j] == d;
                        assert(d.le(end_date));
                    }
                },
                Frequency::Yearly => {
                    let ys = yearly_years(
                        rule,
                        s.year as int,
                        s.date_of(),
                        end_date,
                        s,
                        self.step_len(),
                    );
                    lemma_yearly_years_elems(
                        rule,
                        s.year as int,
                        s.date_of(),
                        end_date,
                        s,
                        self.step_len(),
                    );
                    let cut = truncated(ys, self.max_len());
                    assert(cut[k] == ys[k]);
                    assert(p == s.with_date(ys[k]));
                    assert(ys[k].le(end_date));
                },
                _ => {
                    assert(false);
                },
            }
        };
    }

    /// The `until` bound holds of every occurrence: `until` is an inclusive
    /// upper bound on the full civil time of everything `all` returns.
    pub proof fn law_until_bounds_all(self)
        requires
            self.rrule@.len() > 0,
            self.start_point_time is Some,
            self.primary().until is Some,
        ensures
            forall|k: int|
                0 <= k < self.all_points_spec().len() ==> pt_le(
                    #[trigger] self.all_points_spec()[k],
                    self.primary().until.unwrap(),
                ),
    {
        if self.returns_empty() {
        } else {
            let s = self.start_point_time.unwrap();
            let u = self.primary().until.unwrap();
            assert(self.end_point() == u);
            self.lemma_end_date_incl();
            self.lemma_expanded_bounded();
            let end_date = self.end_date_incl();
            let expanded = self.expanded_spec();
            let filtered = filter_window(expanded, self.between_start, self.between_end);
            lemma_filter_window_subset(expanded, self.between_start, self.between_end);
            lemma_pt_le_total();
            filtered.lemma_sort_by_ensures(pt_leq());
            broadcast use vstd::seq_lib::group_to_multiset_ensures;

            let srt = filtered.sort_by(pt_leq());
            lemma_dedup_adj(srt);
            let r = dedup_adj(srt);
            assert forall|k: int| 0 <= k < r.len() implies pt_le(#[trigger] r[k], u) by {
                assert(r.contains(r[k]));
                assert(srt.contains(r[k]));
                assert(srt.to_multiset().contains(r[k]));
                assert(filtered.to_multiset().contains(r[k]));
                assert(filtered.contains(r[k]));
                let j = choose|j: int| 0 <= j < filtered.len() && filtered[j] == r[k];
                assert(expanded.contains(filtered[j]));
                let m = choose|m: int| 0 <= m < expanded.len() && expanded[m] == filtered[j];
                let p = expanded[m];
                assert(p.hour == s.hour && p.min == s.min && p.sec == s.sec);
                assert(p.date_of().le(end_date));
                if hms_le(s, u) {
                    assert(end_date == u.date_of());
                    assert(pt_le(p, u));
                } else {
                    assert(end_date.lt(u.date_of()));
                    assert(p.date_of().lt(u.date_of()));
                    assert(pt_lt(p, u));
                }
            };
        }
    }
}

/// Consecutive ISO years tile the days: week 1 of year `y` starts exactly
/// `7 * iso_weeks_in_year(y - 1)` days after week 1 of year `y - 1`.
pub proof fn lemma_week_partition(y: int)
    requires
        0 <= y,
    ensures
        week1_monday_dn(y) == week1_monday_dn(y - 1) + 7 * iso_weeks_in_year(y - 1),
{
    let yp = y - 1;
    let dd = days_in_year(yp);
    let dnp1 = day_number(yp, 1, 1);
    let dnp4 = day_number(yp, 1, 4);
    let dn4 = day_number(y, 1, 4);
    assert(days_before_year(y) == days_before_year(yp) + dd);
    assert(days_before_month(y, 1) == 0 && days_before_month(yp, 1) == 0);
    assert(dn4 == dnp4 + dd);
    assert(dnp4 == dnp1 + 3);
    crate::civil::lemma_dbm_13(yp);
    assert(days_before_month(yp, 13) == days_before_month(yp, 12) + days_in_month(yp, 12));
    let dn_dec = day_number(yp, 12, 31);
    assert(dn_dec == dnp1 + dd - 1);
    let w1 = weekday_num(yp, 1, 1);
    let w4p = weekday_num(yp, 1, 4);
    let w4 = weekday_num(y, 1, 4);
    let wdec = weekday_num(yp, 12, 31);
    assert(w4p == (dnp1 + 6) % 7);
    assert(w4 == (dnp1 + 6 + dd) % 7);
    assert(wdec == (dnp1 + dd + 2) % 7);
    assert(w1 == (dnp1 + 3) % 7);
    let b = dnp1 % 7;
    vstd::arithmetic::div_mod::lemma_mod_bound(dnp1, 7);
    assert((dnp1 + 6) % 7 == (b + 6) % 7) by {
        vstd::arithmetic::div_mod::lemma_mod_adds(dnp1, 6, 7);
        vstd::arithmetic::div_mod::lemma_mod_twice(dnp1, 7);
        vstd::arithmetic::div_mod::lemma_mod_adds(b, 6, 7);
    };
    assert((dnp1 + 3) % 7 == (b + 3) % 7) by {
        vstd::arithmetic::div_mod::lemma_mod_adds(dnp1, 3, 7);
        vstd::arithmetic::div_mod::lemma_mod_twice(dnp1, 7);
        vstd::arithmetic::div_mod::lemma_mod_adds(b, 3, 7);
    };
    assert((dnp1 + 6 + dd) % 7 == (b + 6 + dd) % 7) by {
        vstd::arithmetic::div_mod::lemma_mod_adds(dnp1, 6 + dd, 7);
        vstd::arithmetic::div_mod::lemma_mod_twice(dnp1, 7);
        vstd::arithmetic::div_mod::lemma_mod_adds(b, 6 + dd, 7);
    };
    assert((dnp1 + dd + 2) % 7 == (b + dd + 2) % 7) by {
        vstd::arithmetic::div_mod::lemma_mod_adds(dnp1, dd + 2, 7);
        vstd::arithmetic::div_mod::lemma_mod_twice(dnp1, 7);
        vstd::arithmetic::div_mod::lemma_mod_adds(b, dd + 2, 7);
    };
    assert(dd == 365 || dd == 366);
    assert(0 <= b < 7);
    assert(week1_monday_dn(y) == dn4 - w4 && week1_monday_dn(yp) == dnp4 - w4p);
    assert(dn4 - w4 == dnp4 - w4p + 7 * iso_weeks_in_year(yp)) by {
        assert(w4 == (b + 6 + dd) % 7 && w4p == (b + 6) % 7 && w1 == (b + 3) % 7 && wdec == (b + dd
            + 2) % 7);
        assert(iso_weeks_in_year(yp) == if w1 == 3 || wdec == 3 {
            53int
        } else {
            52int
        });
        if b == 0 {
        } else if b == 1 {
        } else if b == 2 {
        } else if b == 3 {
        } else if b == 4 {
        } else if b == 5 {
        } else {
            assert(b == 6);
        }
    };
}

/// A January date whose ISO week still belongs to the previous year matches
/// that year's last week under `BYWEEKNO=-1`.
pub proof fn law_prior_year_last_week(d: Date)
    requires
        d.wf(),
        1 <= d.year <= 998_000,
        d.month == 1,
        iso_week_of(d.year as int, 1, d.day as int) > 51,
    ensures
        in_nth_weekno_spec(d)(-1),
{
    let y = d.year as int;
    lemma_week_partition(y);
    let yp = y - 1;
    let iw = iso_week_of(y, 1, d.day as int);
    let ord = ordinal_of(y, 1, d.day as int);
    let iwd = weekday_num(y, 1, d.day as int) + 1;
    assert(ord == d.day);
    assert(1 <= iwd <= 7);
    let w_raw = (ord - iwd + 10) / 7;
    assert(w_raw >= 0) by {
        vstd::arithmetic::div_mod::lemma_div_pos_is_pos(ord - iwd + 10, 7);
    };
    if w_raw >= 1 {
        assert(w_raw <= 5) by {
            assert(ord - iwd + 10 <= 40);
            vstd::arithmetic::div_mod::lemma_div_is_ordered(ord - iwd + 10, 40, 7);
            assert(40int / 7 == 5);
        };
        assert(iw <= iso_weeks_in_year(y) ==> iw == w_raw);
        assert(false);
    }
    assert(w_raw < 1);
    assert(iw == iso_weeks_in_year(yp));
    // the day number of the Monday opening the previous year's last week
    let mdn = week1_monday_dn(yp) + 7 * (iso_weeks_in_year(yp) - 1);
    assert(mdn == week1_monday_dn(y) - 7);
    // Some(mdn): that Monday does not fall before the previous January 1
    crate::civil::lemma_dby_0();
    crate::civil::lemma_dby_mono(0, yp);
    assert(week1_monday_dn(yp) >= day_number(yp, 1, 4) - 6);
    assert(iso_weeks_in_year(yp) >= 52);
    assert(mdn >= day_number(yp, 1, 1)) by {
        assert(day_number(yp, 1, 4) == day_number(yp, 1, 1) + 3);
        assert(7 * (iso_weeks_in_year(yp) - 1) >= 357);
    };
    assert(monday_of_iso_week_dn(yp, -1) == Some(mdn));
    // the date itself does not fall before that Monday
    assert(week1_monday_dn(y) == day_number(y, 1, 4) - weekday_num(y, 1, 4));
    assert(weekday_num(y, 1, 4) <= 6) by {
        vstd::arithmetic::div_mod::lemma_mod_bound(day_number(y, 1, 4) + 3, 7);
    };
    assert(d.dn() >= day_number(y, 1, 1));
    assert(d.dn() >= mdn) by {
        assert(day_number(y, 1, 4) == day_number(y, 1, 1) + 3);
        assert(mdn == day_number(y, 1, 4) - weekday_num(y, 1, 4) - 7);
    };
}

} // verus!
