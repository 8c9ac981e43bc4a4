use chrono::TimeZone;
use rrule_rust::point_time::PointTime;
use rrule_rust::rrule::get_start_time_by_week;
use rrule_rust::rrule::weekday::Weekday;
use rrule_rust::rrule::RRule;

#[test]
fn rrule_parse_time_with_tz() {
    let time: PointTime = "20231115T191020".parse().unwrap();
    let millis = time.with_timezone("America/New_York").unwrap();
    let expected = chrono_tz::Tz::America__New_York
        .with_ymd_and_hms(2023, 11, 15, 19, 10, 20)
        .single()
        .unwrap()
        .timestamp_millis();
    assert_eq!(millis, expected);
}

#[test]
fn test_get_start_time_by_week() {
    let date_time: PointTime = "20231023T180000".parse().unwrap();
    let start = get_start_time_by_week(&date_time, Weekday::Tue);
    assert_eq!(start, "20231024T180000".parse().unwrap())
}

#[test]
fn test_only_rrule() {
    let s = "FREQ=DAILY;COUNT=3;BYDAY=TU,WE";
    let rrule = RRule::from_str(s);
    assert_eq!(rrule, RRule::from_str("FREQ=DAILY;COUNT=3;BYDAY=TU,WE"))
}

#[test]
fn rrule_reads_every_property() {
    let rrule = RRule::from_str(
        "RRULE:FREQ=MONTHLY;COUNT=7;INTERVAL=2;WKST=SU;BYDAY=MO,-1FR;BYMONTHDAY=1,-3;BYYEARDAY=20;BYWEEKNO=-1;BYMONTH=1,2",
    );
    assert_eq!(rrule.count, 7);
    assert_eq!(rrule.interval, 2);
    assert_eq!(rrule.week_start, Weekday::Sun);
    assert_eq!(rrule.by_day.len(), 2);
    assert_eq!(rrule.by_month_day, vec![1, -3]);
    assert_eq!(rrule.by_year_day, vec![20]);
    assert_eq!(rrule.by_week_no, vec![-1]);
    assert_eq!(rrule.by_month, vec![1, 2]);
}

#[test]
fn rrule_ignores_what_it_cannot_read() {
    let rrule = RRule::from_str("RRULE:FREQ=DAILY;COUNT=oops;INTERVAL=bad;NOSUCHKEY=1;UNTIL=xx");
    assert_eq!(rrule.count, 0);
    assert_eq!(rrule.interval, 1);
    assert_eq!(rrule.until, None);
}

#[test]
fn zero_padded_numbers_keep_their_value() {
    let rrule = RRule::from_str("RRULE:FREQ=DAILY;COUNT=00000000001;INTERVAL=0002");
    assert_eq!(rrule.count, 1);
    assert_eq!(rrule.interval, 2);
    let wide = RRule::from_str("RRULE:FREQ=DAILY;BYMONTHDAY=007,-08");
    assert_eq!(wide.by_month_day, vec![7, -8]);
}

#[test]
fn epoch_start_is_zero_in_utc() {
    let time: PointTime = "19700101T000000".parse().unwrap();
    assert_eq!(time.with_timezone("UTC").unwrap(), 0);
    assert!(time.with_timezone("Not/AZone").is_none());
}
