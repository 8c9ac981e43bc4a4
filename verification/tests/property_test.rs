use rrule_rust::civil::Date;
use rrule_rust::point_time::PointTime;
use rrule_rust::rrule_set::RRuleSet;

#[test]
fn all_is_strictly_ascending_and_duplicate_free() {
    let set = RRuleSet::from_str(
        "DTSTART:20231023T180000Z\nRRULE:FREQ=DAILY;COUNT=40;BYDAY=MO,TU,WE",
    )
    .unwrap();
    let dates = set.all();
    assert_eq!(dates.len(), 40);
    for w in dates.windows(2) {
        assert!(w[0] < w[1]);
    }
}

#[test]
fn count_bounds_the_result() {
    let set =
        RRuleSet::from_str("DTSTART:20231023T180000Z\nRRULE:FREQ=WEEKLY;COUNT=5").unwrap();
    assert!(set.all().len() <= 5);
    let set2 = RRuleSet::from_str(
        "DTSTART:20231023T180000Z\nRRULE:FREQ=DAILY;COUNT=9;BYMONTH=2",
    )
    .unwrap();
    assert!(set2.all().len() <= 9);
}

#[test]
fn until_bounds_the_result() {
    let set = RRuleSet::from_str(
        "DTSTART:20231023T180000Z\nRRULE:FREQ=DAILY;UNTIL=20231031T235959",
    )
    .unwrap();
    let dates = set.all();
    let bound: PointTime = "20231031T235959".parse().unwrap();
    assert!(!dates.is_empty());
    for d in dates.iter() {
        assert!(d <= &bound);
    }
}

#[test]
fn until_bounds_the_full_civil_time() {
    // the bound falls at midnight of the 24th, before the 18:00 occurrence
    // that day would carry
    let set = RRuleSet::from_str(
        "DTSTART:20231023T180000Z\nRRULE:FREQ=DAILY;COUNT=2;UNTIL=20231024T000000",
    )
    .unwrap();
    let dates = set.all();
    assert_eq!(dates, vec!["20231023T180000".parse::<PointTime>().unwrap()]);
    let bound: PointTime = "20231024T000000".parse().unwrap();
    for d in dates.iter() {
        assert!(d <= &bound);
    }
}

#[test]
fn count_zero_without_until_yields_nothing() {
    let mut set =
        RRuleSet::from_str("DTSTART:20231023T180000Z\nRRULE:FREQ=DAILY;COUNT=3").unwrap();
    set.set_count(0);
    assert!(set.all().is_empty());
}

#[test]
fn start_past_until_yields_nothing() {
    let set = RRuleSet::from_str(
        "DTSTART:20231023T180000Z\nRRULE:FREQ=DAILY;UNTIL=20231001T000000",
    )
    .unwrap();
    assert!(set.all().is_empty());
}

#[test]
fn negative_month_day_resolves_to_month_length() {
    // a 31-day month
    assert_eq!(
        RRuleSet::get_nth_day_of_month(2023, 10, -1).unwrap(),
        Date::new(2023, 10, 31)
    );
    // February outside a leap year
    assert_eq!(
        RRuleSet::get_nth_day_of_month(2023, 2, -1).unwrap(),
        Date::new(2023, 2, 28)
    );
    // February in a leap year
    assert_eq!(
        RRuleSet::get_nth_day_of_month(2024, 2, -1).unwrap(),
        Date::new(2024, 2, 29)
    );
    // reaching before the first day finds nothing
    assert!(RRuleSet::get_nth_day_of_month(2023, 2, -29).is_none());
}

#[test]
fn negative_year_day_resolves_from_the_years_end() {
    assert_eq!(
        RRuleSet::get_nth_day_of_year(2023, -1).unwrap(),
        Date::new(2023, 12, 31)
    );
    // day 366 of a year that has no such day
    assert!(RRuleSet::get_nth_day_of_year(2023, 366).is_none());
    assert_eq!(
        RRuleSet::get_nth_day_of_year(2024, 366).unwrap(),
        Date::new(2024, 12, 31)
    );
}

#[test]
fn last_week_reaches_january_of_the_next_year() {
    // January 1, 2021 belongs to ISO week 53 of 2020; under week -1 it matches.
    assert!(RRuleSet::is_in_nth_weekno(&Date::new(2021, 1, 1), -1));
    // January 4, 2021 opens week 1 of 2021 and does not.
    assert!(!RRuleSet::is_in_nth_weekno(&Date::new(2021, 1, 4), -1));
}

#[test]
fn unreadable_dtstart_fails_construction() {
    assert!(RRuleSet::from_str("DTSTART:20231x23T180000\nRRULE:FREQ=DAILY;COUNT=1").is_err());
    assert!(RRuleSet::from_str("DTSTART;TZID=No/Where:20231023T180000\nRRULE:FREQ=DAILY").is_err());
    assert!(RRuleSet::from_str("DTSTART:20231023T180000Z\nRRULE:FREQ=DAILY;COUNT=1").is_ok());
}

#[test]
fn bad_zone_name_is_not_taken() {
    let mut set =
        RRuleSet::from_str("DTSTART:20231023T180000Z\nRRULE:FREQ=DAILY;COUNT=1").unwrap();
    set.tz("Not/AZone");
    assert_eq!(set.tz, "UTC");
}

#[test]
fn millis_follow_the_zone() {
    let set =
        RRuleSet::from_str("DTSTART:19700101T000000Z\nRRULE:FREQ=DAILY;COUNT=2").unwrap();
    let millis = set.all_unix_millis().unwrap();
    assert_eq!(millis, vec![0, 86_400_000]);
}

#[test]
fn add_month_slides_off_short_months() {
    let p: PointTime = "20240131T120000".parse().unwrap();
    let mut p2 = p.clone();
    // February has no day 31, so the date slides into March.
    assert_eq!(p2.add_month(1), "20240331T120000".parse().unwrap());
    let q: PointTime = "20240315T120000".parse().unwrap();
    let mut q2 = q.clone();
    assert_eq!(q2.add_month(11), "20250215T120000".parse().unwrap());
}

#[test]
fn mixed_byday_forms_produce_nothing() {
    let set = RRuleSet::from_str(
        "DTSTART:20231123T091800Z\nRRULE:FREQ=YEARLY;COUNT=3;BYDAY=MO,-1FR",
    )
    .unwrap();
    assert!(set.all().is_empty());
}
