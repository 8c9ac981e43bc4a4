//! Civil (proleptic Gregorian) calendar arithmetic: leap years, month
//! lengths, day numbers, weekdays, and ISO 8601 week numbering.
use vstd::prelude::*;

verus! {

/// A civil calendar date: year, month (1..=12), day (1..=31).
#[derive(Clone, Copy, PartialEq, Eq, Structural, Debug)]
pub struct Date {
    pub year: i32,
    pub month: u32,
    pub day: u32,
}

pub open spec fn is_leap_year(y: int) -> bool {
    y % 4 == 0 && (y % 100 != 0 || y % 400 == 0)
}

pub open spec fn days_in_year(y: int) -> int {
    if is_leap_year(y) { 366 } else { 365 }
}

pub open spec fn days_in_month(y: int, m: int) -> int {
    if m == 2 {
        if is_leap_year(y) { 29 } else { 28 }
    } else if m == 4 || m == 6 || m == 9 || m == 11 {
        30
    } else {
        31
    }
}

/// Days in the months of year `y` strictly before month `m`.
pub open spec fn days_before_month(y: int, m: int) -> int
    decreases m,
{
    if m <= 1 { 0 } else { days_before_month(y, m - 1) + days_in_month(y, m - 1) }
}

/// Days in the years of the interval [-1, y).
pub open spec fn days_before_year(y: int) -> int
    decreases y + 1,
{
    if y <= -1 { 0 } else { days_before_year(y - 1) + days_in_year(y - 1) }
}

/// One-based day number of a date; day_number(-1, 1, 1) == 1.
pub open spec fn day_number(y: int, m: int, d: int) -> int {
    days_before_year(y) + days_before_month(y, m) + d
}

/// Weekday of a date: 0 = Monday ... 6 = Sunday.
pub open spec fn weekday_num(y: int, m: int, d: int) -> int {
    (day_number(y, m, d) + 3) % 7
}

/// One-based ordinal of a date within its year.
pub open spec fn ordinal_of(y: int, m: int, d: int) -> int {
    days_before_month(y, m) + d
}

impl Date {
    pub open spec fn wf(self) -> bool {
        &&& -1 <= self.year <= 1_000_000
        &&& 1 <= self.month <= 12
        &&& 1 <= self.day <= days_in_month(self.year as int, self.month as int)
    }

    pub open spec fn dn(self) -> int {
        day_number(self.year as int, self.month as int, self.day as int)
    }

    pub open spec fn wd(self) -> int {
        weekday_num(self.year as int, self.month as int, self.day as int)
    }

    pub open spec fn lt(self, other: Date) -> bool {
        ||| self.year < other.year
        ||| (self.year == other.year && self.month < other.month)
        ||| (self.year == other.year && self.month == other.month && self.day < other.day)
    }

    pub open spec fn le(self, other: Date) -> bool {
        self.lt(other) || self == other
    }

    pub fn new(year: i32, month: u32, day: u32) -> (r: Date)
        ensures
            r == (Date { year, month, day }),
    {
        Date { year, month, day }
    }
}

pub proof fn lemma_dbm_nonneg(y: int, m: int)
    ensures
        days_before_month(y, m) >= 0,
    decreases m,
{
    if m > 1 {
        lemma_dbm_nonneg(y, m - 1);
    }
}

pub proof fn lemma_dbm_mono(y: int, m1: int, m2: int)
    requires
        m1 <= m2,
    ensures
        days_before_month(y, m1) <= days_before_month(y, m2),
    decreases m2 - m1,
{
    if m1 < m2 {
        lemma_dbm_mono(y, m1, m2 - 1);
    }
}

/// The days before the (fictitious) thirteenth month are the whole year.
pub proof fn lemma_dbm_13(y: int)
    ensures
        days_before_month(y, 13) == days_in_year(y),
{
    reveal_with_fuel(days_before_month, 13);
}

pub proof fn lemma_dby_nonneg(y: int)
    ensures
        days_before_year(y) >= 0,
    decreases y + 1,
{
    if y >= 0 {
        lemma_dby_nonneg(y - 1);
    }
}

pub proof fn lemma_dby_mono(y1: int, y2: int)
    requires
        y1 <= y2,
    ensures
        days_before_year(y1) <= days_before_year(y2),
        y1 >= -1 ==> days_before_year(y1) + 365 * (y2 - y1) <= days_before_year(y2),
    decreases y2 - y1,
{
    if y1 < y2 {
        lemma_dby_mono(y1, y2 - 1);
    }
}

pub proof fn lemma_dby_bound(y: int)
    requires
        y >= -1,
    ensures
        days_before_year(y) <= 366 * (y + 1),
    decreases y + 1,
{
    if y >= 0 {
        lemma_dby_bound(y - 1);
    }
}

pub proof fn lemma_dby_0()
    ensures
        days_before_year(-1) == 0,
        days_before_year(0) == 365,
{
    assert(days_before_year(-1) == 0);
    assert(!is_leap_year(-1));
}

/// Within a year, a valid date's day number stays within the year's days.
pub proof fn lemma_dn_in_year(y: int, m: int, d: int)
    requires
        y >= -1,
        1 <= m <= 12,
        1 <= d <= days_in_month(y, m),
    ensures
        1 <= ordinal_of(y, m, d) <= days_in_year(y),
        days_before_year(y) < day_number(y, m, d) <= days_before_year(y + 1),
{
    lemma_dbm_nonneg(y, m);
    lemma_dbm_mono(y, m + 1, 13);
    lemma_dbm_13(y);
    assert(days_before_month(y, m + 1) == days_before_month(y, m) + days_in_month(y, m));
    assert(days_before_year(y + 1) == days_before_year(y) + days_in_year(y));
}

/// Day numbers respect the lexicographic order of valid dates.
pub proof fn lemma_dn_mono(a: Date, b: Date)
    requires
        a.wf(),
        b.wf(),
        a.lt(b),
    ensures
        a.dn() < b.dn(),
{
    let (ya, ma, da) = (a.year as int, a.month as int, a.day as int);
    let (yb, mb, db) = (b.year as int, b.month as int, b.day as int);
    lemma_dn_in_year(ya, ma, da);
    lemma_dn_in_year(yb, mb, db);
    if ya < yb {
        lemma_dby_mono(ya + 1, yb);
    } else if ma < mb {
        lemma_dbm_mono(ya, ma + 1, mb);
        assert(days_before_month(ya, ma + 1) == days_before_month(ya, ma) + days_in_month(ya, ma));
    }
}

/// Equal day numbers mean equal valid dates.
pub proof fn lemma_dn_inj(a: Date, b: Date)
    requires
        a.wf(),
        b.wf(),
        a.dn() == b.dn(),
    ensures
        a == b,
{
    if a.lt(b) {
        lemma_dn_mono(a, b);
    } else if b.lt(a) {
        lemma_dn_mono(b, a);
    } else {
        assert(a.year == b.year && a.month == b.month && a.day == b.day);
    }
}

pub fn leap_year_x(y: i32) -> (r: bool)
    requires
        y >= -1,
    ensures
        r == is_leap_year(y as int),
{
    if y < 0 {
        assert(!is_leap_year(-1));
        false
    } else {
        let u = y as u32;
        u % 4 == 0 && (u % 100 != 0 || u % 400 == 0)
    }
}

pub fn days_in_month_x(y: i32, m: u32) -> (r: u32)
    requires
        y >= -1,
        1 <= m <= 12,
    ensures
        r == days_in_month(y as int, m as int),
{
    if m == 2 {
        if leap_year_x(y) { 29 } else { 28 }
    } else if m == 4 || m == 6 || m == 9 || m == 11 {
        30
    } else {
        31
    }
}

pub fn days_in_year_x(y: i32) -> (r: u32)
    requires
        y >= -1,
    ensures
        r == days_in_year(y as int),
{
    if leap_year_x(y) { 366 } else { 365 }
}

pub fn days_before_month_x(y: i32, m: u32) -> (r: u32)
    requires
        y >= -1,
        1 <= m <= 13,
    ensures
        r == days_before_month(y as int, m as int),
{
    let mut i: u32 = 1;
    let mut acc: u32 = 0;
    while i < m
        invariant
            y >= -1,
            1 <= i <= m <= 13,
            acc == days_before_month(y as int, i as int),
            acc <= 366,
        decreases m - i,
    {
        proof {
            lemma_dbm_mono(y as int, i as int + 1, 13);
            lemma_dbm_13(y as int);
        }
        acc = acc + days_in_month_x(y, i);
        i = i + 1;
    }
    acc
}

pub fn days_before_year_x(y: i32) -> (r: u64)
    requires
        -1 <= y <= 1_000_001,
    ensures
        r == days_before_year(y as int),
{
    if y <= -1 {
        return 0;
    }
    let mut i: i32 = 0;
    let mut acc: u64 = 365;
    proof {
        lemma_dby_0();
    }
    while i < y
        invariant
            0 <= i <= y <= 1_000_001,
            acc == days_before_year(i as int),
        decreases y - i,
    {
        proof {
            lemma_dby_bound(i as int);
        }
        acc = acc + days_in_year_x(i) as u64;
        i = i + 1;
    }
    acc
}

pub fn day_number_x(d: Date) -> (r: u64)
    requires
        d.wf(),
    ensures
        r == d.dn(),
        1 <= r <= 400_000_000,
{
    proof {
        lemma_dby_nonneg(d.year as int);
        lemma_dbm_nonneg(d.year as int, d.month as int);
        lemma_dbm_mono(d.year as int, d.month as int, 13);
        lemma_dbm_13(d.year as int);
        lemma_dn_in_year(d.year as int, d.month as int, d.day as int);
        lemma_dby_bound(d.year as int);
    }
    days_before_year_x(d.year) + days_before_month_x(d.year, d.month) as u64 + d.day as u64
}

pub fn weekday_x(d: Date) -> (r: u32)
    requires
        d.wf(),
    ensures
        r == d.wd(),
        r < 7,
{
    let dn = day_number_x(d);
    ((dn + 3) % 7) as u32
}

pub fn ordinal_x(d: Date) -> (r: u32)
    requires
        d.wf(),
    ensures
        r == ordinal_of(d.year as int, d.month as int, d.day as int),
        1 <= r <= 366,
{
    proof {
        lemma_dn_in_year(d.year as int, d.month as int, d.day as int);
    }
    days_before_month_x(d.year, d.month) + d.day
}

pub open spec fn next_date_spec(d: Date) -> Date {
    if d.day < days_in_month(d.year as int, d.month as int) {
        Date { year: d.year, month: d.month, day: (d.day + 1) as u32 }
    } else if d.month < 12 {
        Date { year: d.year, month: (d.month + 1) as u32, day: 1 }
    } else {
        Date { year: (d.year + 1) as i32, month: 1, day: 1 }
    }
}

pub proof fn lemma_next_date(d: Date)
    requires
        d.wf(),
        d.year < 1_000_000,
    ensures
        next_date_spec(d).wf(),
        next_date_spec(d).dn() == d.dn() + 1,
        d.lt(next_date_spec(d)),
{
    let y = d.year as int;
    let m = d.month as int;
    if d.day < days_in_month(y, m) {
    } else if d.month < 12 {
        assert(days_before_month(y, m + 1) == days_before_month(y, m) + days_in_month(y, m));
    } else {
        lemma_dbm_13(y);
        assert(days_before_year(y + 1) == days_before_year(y) + days_in_year(y));
        assert(days_before_month(y, 13) == days_before_month(y, 12) + days_in_month(y, 12));
    }
}

pub fn next_date(d: Date) -> (r: Date)
    requires
        d.wf(),
        d.year < 1_000_000,
    ensures
        r == next_date_spec(d),
        r.wf(),
        r.dn() == d.dn() + 1,
        d.lt(r),
{
    proof {
        lemma_next_date(d);
    }
    if d.day < days_in_month_x(d.year, d.month) {
        Date { year: d.year, month: d.month, day: d.day + 1 }
    } else if d.month < 12 {
        Date { year: d.year, month: d.month + 1, day: 1 }
    } else {
        Date { year: d.year + 1, month: 1, day: 1 }
    }
}

pub open spec fn prev_date_spec(d: Date) -> Date {
    if d.day > 1 {
        Date { year: d.year, month: d.month, day: (d.day - 1) as u32 }
    } else if d.month > 1 {
        Date {
            year: d.year,
            month: (d.month - 1) as u32,
            day: days_in_month(d.year as int, d.month as int - 1) as u32,
        }
    } else {
        Date {
            year: (d.year - 1) as i32,
            month: 12,
            day: days_in_month(d.year as int - 1, 12) as u32,
        }
    }
}

pub proof fn lemma_prev_date(d: Date)
    requires
        d.wf(),
        d.dn() > 1,
    ensures
        prev_date_spec(d).wf(),
        prev_date_spec(d).dn() == d.dn() - 1,
        prev_date_spec(d).lt(d),
{
    let y = d.year as int;
    let m = d.month as int;
    if d.day > 1 {
    } else if d.month > 1 {
        assert(days_before_month(y, m) == days_before_month(y, m - 1) + days_in_month(y, m - 1));
    } else {
        assert(y > -1) by {
            lemma_dby_0();
            if y == -1 {
                assert(d.dn() == 1);
            }
        };
        lemma_dbm_13(y - 1);
        assert(days_before_year(y) == days_before_year(y - 1) + days_in_year(y - 1));
        assert(days_before_month(y - 1, 13) == days_before_month(y - 1, 12) + days_in_month(
            y - 1,
            12,
        ));
    }
}

pub fn prev_date(d: Date) -> (r: Date)
    requires
        d.wf(),
        d.dn() > 1,
    ensures
        r == prev_date_spec(d),
        r.wf(),
        r.dn() == d.dn() - 1,
        r.lt(d),
{
    proof {
        lemma_prev_date(d);
        if d.day == 1 && d.month == 1 {
            lemma_dby_0();
            if d.year == -1 {
                assert(d.dn() == 1);
            }
        }
    }
    if d.day > 1 {
        Date { year: d.year, month: d.month, day: d.day - 1 }
    } else if d.month > 1 {
        Date { year: d.year, month: d.month - 1, day: days_in_month_x(d.year, d.month - 1) }
    } else {
        Date { year: d.year - 1, month: 12, day: days_in_month_x(d.year - 1, 12) }
    }
}

/// The date `k` days after `d`.
pub open spec fn add_days_spec(d: Date, k: nat) -> Date
    decreases k,
{
    if k == 0 { d } else { add_days_spec(next_date_spec(d), (k - 1) as nat) }
}

pub proof fn lemma_add_days(d: Date, k: nat)
    requires
        d.wf(),
        d.year + 1 + k <= 1_000_000,
    ensures
        add_days_spec(d, k).wf(),
        add_days_spec(d, k).dn() == d.dn() + k,
        add_days_spec(d, k).year <= d.year + 1 + k,
    decreases k,
{
    if k > 0 {
        lemma_next_date(d);
        let n = next_date_spec(d);
        assert(n.year <= d.year + 1);
        lemma_add_days(n, (k - 1) as nat);
    }
}

pub fn add_days(d: Date, k: u64) -> (r: Date)
    requires
        d.wf(),
        d.year + 1 + k <= 1_000_000,
    ensures
        r == add_days_spec(d, k as nat),
        r.wf(),
        r.dn() == d.dn() + k,
{
    proof {
        lemma_add_days(d, k as nat);
    }
    let mut cur = d;
    let mut i: u64 = 0;
    while i < k
        invariant
            d.wf(),
            d.year + 1 + k <= 1_000_000,
            0 <= i <= k,
            cur == add_days_spec(d, i as nat),
            cur.wf(),
            cur.dn() == d.dn() + i,
            cur.year <= d.year + 1 + i,
        decreases k - i,
    {
        proof {
            lemma_add_days(d, i as nat + 1);
            lemma_next_date(cur);
            assert(add_days_spec(d, (i + 1) as nat) == add_days_spec(
                next_date_spec(d),
                i as nat,
            ));
            lemma_add_days_shift(d, i as nat);
        }
        cur = next_date(cur);
        i = i + 1;
    }
    cur
}

/// Stepping then adding equals adding then stepping.
pub proof fn lemma_add_days_shift(d: Date, k: nat)
    requires
        d.wf(),
        d.year + 2 + k <= 1_000_000,
    ensures
        next_date_spec(add_days_spec(d, k)) == add_days_spec(next_date_spec(d), k),
    decreases k,
{
    lemma_next_date(d);
    if k > 0 {
        lemma_add_days_shift(next_date_spec(d), (k - 1) as nat);
    }
}

/// The date `k` days before `d`.
pub open spec fn sub_days_spec(d: Date, k: nat) -> Date
    decreases k,
{
    if k == 0 { d } else { sub_days_spec(prev_date_spec(d), (k - 1) as nat) }
}

pub proof fn lemma_sub_days(d: Date, k: nat)
    requires
        d.wf(),
        d.dn() > k,
    ensures
        sub_days_spec(d, k).wf(),
        sub_days_spec(d, k).dn() == d.dn() - k,
        sub_days_spec(d, k).year >= -1,
        sub_days_spec(d, k).year <= d.year,
    decreases k,
{
    if k > 0 {
        lemma_prev_date(d);
        lemma_sub_days(prev_date_spec(d), (k - 1) as nat);
    }
}

pub fn sub_days(d: Date, k: u64) -> (r: Date)
    requires
        d.wf(),
        d.dn() > k,
    ensures
        r == sub_days_spec(d, k as nat),
        r.wf(),
        r.dn() == d.dn() - k,
{
    let mut cur = d;
    let mut i: u64 = 0;
    while i < k
        invariant
            d.wf(),
            d.dn() > k,
            0 <= i <= k,
            cur == sub_days_spec(d, i as nat),
            cur.wf(),
            cur.dn() == d.dn() - i,
        decreases k - i,
    {
        proof {
            lemma_sub_days(d, i as nat);
            lemma_sub_days(d, i as nat + 1);
            assert(d.dn() - i > 1);
            lemma_prev_date(cur);
            lemma_sub_days_shift(d, i as nat);
        }
        cur = prev_date(cur);
        i = i + 1;
    }
    cur
}

pub proof fn lemma_sub_days_shift(d: Date, k: nat)
    requires
        d.wf(),
        d.dn() > k + 1,
    ensures
        prev_date_spec(sub_days_spec(d, k)) == sub_days_spec(prev_date_spec(d), k),
    decreases k,
{
    lemma_prev_date(d);
    if k > 0 {
        lemma_sub_days_shift(prev_date_spec(d), (k - 1) as nat);
    }
}

pub fn date_lt(a: &Date, b: &Date) -> (r: bool)
    ensures
        r == a.lt(*b),
{
    if a.year != b.year {
        a.year < b.year
    } else if a.month != b.month {
        a.month < b.month
    } else {
        a.day < b.day
    }
}

pub fn date_le(a: &Date, b: &Date) -> (r: bool)
    ensures
        r == a.le(*b),
{
    !date_lt(b, a)
}

pub fn date_eq(a: &Date, b: &Date) -> (r: bool)
    ensures
        r == (*a == *b),
{
    a.year == b.year && a.month == b.month && a.day == b.day
}

// ---------------------------------------------------------------------------
// ISO 8601 week numbering. Weeks run Monday..Sunday; week 1 is the week that
// contains January 4 (equivalently, the year's first Thursday).
// ---------------------------------------------------------------------------

/// Whether the ISO year `y` has 53 weeks (else 52).
pub open spec fn iso_long_year(y: int) -> bool {
    weekday_num(y, 1, 1) == 3 || weekday_num(y, 12, 31) == 3
}

pub open spec fn iso_weeks_in_year(y: int) -> int {
    if iso_long_year(y) { 53 } else { 52 }
}

/// The raw week index of a date before wrapping at the year boundaries.
pub open spec fn iso_week_raw(y: int, m: int, d: int) -> int {
    (ordinal_of(y, m, d) - (weekday_num(y, m, d) + 1) + 10) / 7
}

/// The ISO week number of a date (1..=53).
pub open spec fn iso_week_of(y: int, m: int, d: int) -> int {
    let w = iso_week_raw(y, m, d);
    if w < 1 {
        iso_weeks_in_year(y - 1)
    } else if w > iso_weeks_in_year(y) {
        1
    } else {
        w
    }
}

/// The day number of the Monday of ISO week 1 of year `y`.
pub open spec fn week1_monday_dn(y: int) -> int {
    day_number(y, 1, 4) - weekday_num(y, 1, 4)
}

/// The date of the `ord`-th day of year `y`, searching from month `m`.
pub open spec fn ord_to_date_from(y: int, ord: int, m: int) -> Date
    decreases 13 - m,
{
    if m >= 12 || ord <= days_before_month(y, m + 1) {
        Date { year: y as i32, month: m as u32, day: (ord - days_before_month(y, m)) as u32 }
    } else {
        ord_to_date_from(y, ord, m + 1)
    }
}

pub open spec fn ordinal_to_date_spec(y: int, ord: int) -> Date {
    ord_to_date_from(y, ord, 1)
}

pub proof fn lemma_ord_to_date_from(y: int, ord: int, m: int)
    requires
        -1 <= y <= 1_000_000,
        1 <= m <= 12,
        days_before_month(y, m) < ord <= days_in_year(y),
    ensures
        ord_to_date_from(y, ord, m).wf(),
        ord_to_date_from(y, ord, m).year == y,
        ord_to_date_from(y, ord, m).month >= m,
        ordinal_of(y, ord_to_date_from(y, ord, m).month as int, ord_to_date_from(y, ord, m).day as int)
            == ord,
    decreases 13 - m,
{
    lemma_dbm_13(y);
    if m >= 12 || ord <= days_before_month(y, m + 1) {
        if m < 12 {
            lemma_dbm_nonneg(y, m);
        }
        assert(days_before_month(y, 13) == days_before_month(y, 12) + days_in_month(y, 12));
    } else {
        assert(days_before_month(y, m + 1) == days_before_month(y, m) + days_in_month(y, m));
        lemma_ord_to_date_from(y, ord, m + 1);
    }
}

pub proof fn lemma_ordinal_to_date(y: int, ord: int)
    requires
        -1 <= y <= 1_000_000,
        1 <= ord <= days_in_year(y),
    ensures
        ordinal_to_date_spec(y, ord).wf(),
        ordinal_to_date_spec(y, ord).year == y,
        ordinal_of(
            y,
            ordinal_to_date_spec(y, ord).month as int,
            ordinal_to_date_spec(y, ord).day as int,
        ) == ord,
        ordinal_to_date_spec(y, ord).dn() == days_before_year(y) + ord,
{
    lemma_dbm_nonneg(y, 1);
    lemma_ord_to_date_from(y, ord, 1);
}

/// The `ord`-th day (one-based) of year `y`.
pub fn ordinal_to_date(y: i32, ord: u32) -> (r: Date)
    requires
        -1 <= y <= 1_000_000,
        1 <= ord <= days_in_year(y as int),
    ensures
        r == ordinal_to_date_spec(y as int, ord as int),
        r.wf(),
        r.year == y,
        ordinal_of(y as int, r.month as int, r.day as int) == ord,
        r.dn() == days_before_year(y as int) + ord,
{
    proof {
        lemma_ordinal_to_date(y as int, ord as int);
    }
    let mut m: u32 = 1;
    while m < 12 && days_before_month_x(y, m + 1) < ord
        invariant
            -1 <= y <= 1_000_000,
            1 <= ord <= days_in_year(y as int),
            1 <= m <= 12,
            days_before_month(y as int, m as int) < ord,
            ord_to_date_from(y as int, ord as int, 1) == ord_to_date_from(
                y as int,
                ord as int,
                m as int,
            ),
        decreases 12 - m,
    {
        proof {
            assert(days_before_month(y as int, m as int + 1) == days_before_month(
                y as int,
                m as int,
            ) + days_in_month(y as int, m as int));
        }
        m = m + 1;
    }
    proof {
        lemma_dbm_nonneg(y as int, m as int);
        lemma_ord_to_date_from(y as int, ord as int, m as int);
        if m < 12 {
            assert(ord <= days_before_month(y as int, m as int + 1));
        }
    }
    let day = ord - days_before_month_x(y, m);
    Date { year: y, month: m, day }
}

pub fn iso_weeks_in_year_x(y: i32) -> (r: u32)
    requires
        -1 <= y <= 999_999,
    ensures
        r == iso_weeks_in_year(y as int),
{
    let jan1 = Date { year: y, month: 1, day: 1 };
    let dec31 = Date { year: y, month: 12, day: 31 };
    if weekday_x(jan1) == 3 || weekday_x(dec31) == 3 {
        53
    } else {
        52
    }
}

pub fn iso_week_x(d: Date) -> (r: u32)
    requires
        d.wf(),
        0 <= d.year <= 999_999,
    ensures
        r == iso_week_of(d.year as int, d.month as int, d.day as int),
        1 <= r <= 53,
{
    let ord = ordinal_x(d);
    let wd = weekday_x(d);
    let num = ord + 10 - (wd + 1);
    assert(num >= 4);
    let w = num / 7;
    assert(w == iso_week_raw(d.year as int, d.month as int, d.day as int));
    if w < 1 {
        iso_weeks_in_year_x(d.year - 1)
    } else {
        let wiy = iso_weeks_in_year_x(d.year);
        if w > wiy {
            1
        } else {
            w
        }
    }
}

/// The Monday starting ISO week 1 of year `y`.
pub fn week1_monday(y: i32) -> (r: Date)
    requires
        0 <= y <= 999_998,
    ensures
        r.wf(),
        r.dn() == week1_monday_dn(y as int),
        y - 1 <= r.year <= y,
{
    let jan4 = Date { year: y, month: 1, day: 4 };
    let wd = weekday_x(jan4);
    proof {
        lemma_dby_0();
        lemma_dby_mono(0, y as int);
        lemma_dbm_nonneg(y as int, 1);
        assert(jan4.dn() >= 365 + days_before_month(y as int, 1) + 4);
    }
    let r = sub_days(jan4, wd as u64);
    proof {
        lemma_sub_days(jan4, wd as nat);
        lemma_dn_in_year(y as int, 1, 4);
        lemma_dn_in_year(r.year as int, r.month as int, r.day as int);
        assert(days_before_year(y as int) == days_before_year(y as int - 1) + days_in_year(
            y as int - 1,
        ));
        assert(r.dn() > days_before_year(y as int - 1));
        if r.year < y - 1 {
            lemma_dby_mono(r.year as int + 1, y as int - 1);
            assert(false);
        }
        assert(y - 1 <= r.year);
        assert(r.year <= y);
    }
    r
}

} // verus!
