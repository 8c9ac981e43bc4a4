use rrule_rust::point_time::PointTime;

#[test]
fn point_time_parse_timestr() {
    let s = String::from("20231115T191020");
    let rs: PointTime = s.parse().unwrap();
    assert_eq!((rs.year, rs.month, rs.day), (2023, 11, 15));
    assert_eq!((rs.hour, rs.min, rs.sec), (19, 10, 20))
}

#[test]
fn test_add_month() {
    assert_eq!(
        "20231031T180000Z"
            .parse::<PointTime>()
            .unwrap()
            .add_month(1),
        "20231231T180000Z".parse().unwrap()
    );

    assert_eq!(
        "20231031T180000Z"
            .parse::<PointTime>()
            .unwrap()
            .add_month(2),
        "20231231T180000Z".parse().unwrap()
    );

    assert_eq!(
        "20231031T180000Z"
            .parse::<PointTime>()
            .unwrap()
            .add_month(3),
        "20240131T180000Z".parse().unwrap()
    );

    assert_eq!(
        "20231029T180000Z"
            .parse::<PointTime>()
            .unwrap()
            .add_month(1),
        "20231129T180000Z".parse().unwrap()
    );
}

#[test]
fn test_ord() {
    assert_eq!(
        "20231115T191020".parse::<PointTime>().unwrap()
            < "20231116T191020".parse::<PointTime>().unwrap(),
        true
    );
    assert_eq!(
        "20231116T191020".parse::<PointTime>().unwrap()
            > "20231115T191020".parse::<PointTime>().unwrap(),
        true
    );
    assert_eq!(
        "20231116T191020".parse::<PointTime>().unwrap()
            == "20231116T191020".parse::<PointTime>().unwrap(),
        true
    );
    assert_eq!(
        "20231029T191020".parse::<PointTime>().unwrap()
            < "23000101T000000".parse::<PointTime>().unwrap(),
        true
    );
}

#[test]
fn parse_error_messages() {
    assert_eq!("2023".parse::<PointTime>().unwrap_err(), "invalid string");
    assert_eq!(
        "2023xx15T191020".parse::<PointTime>().unwrap_err(),
        "invalid month"
    );
    assert_eq!(
        "202311xxT191020".parse::<PointTime>().unwrap_err(),
        "invalid day"
    );
    assert_eq!(
        "20231115x191020".parse::<PointTime>().unwrap_err(),
        "invalid string format"
    );
    assert_eq!(
        "20231115Txx1020".parse::<PointTime>().unwrap_err(),
        "invalid hour"
    );
    assert_eq!(
        "20231115T19xx20".parse::<PointTime>().unwrap_err(),
        "invalid minute"
    );
    assert_eq!(
        "20231115T1910xx".parse::<PointTime>().unwrap_err(),
        "invalid second"
    );
}

#[test]
fn is_valid_checks_the_calendar() {
    let good: PointTime = "20240229T000000".parse().unwrap();
    assert!(good.is_valid());
    let bad: PointTime = "20230229T000000".parse().unwrap();
    assert!(!bad.is_valid());
    let bad_month: PointTime = "20231300T000000".parse().unwrap();
    assert!(!bad_month.is_valid());
}

#[test]
fn min_max_pick_by_order() {
    let a: PointTime = "20231115T191020".parse().unwrap();
    let b: PointTime = "20231116T191020".parse().unwrap();
    assert_eq!(PointTime::get_max_time(&a, &b), &b);
    assert_eq!(PointTime::get_min_time(&a, &b), &a);
}
