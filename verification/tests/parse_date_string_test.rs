use rrule_rust::parse_date_string::ParsedDateString;

#[test]
fn parse_date_string_parse_timestr() {
    let s = String::from("20231115T191020");
    let rs = ParsedDateString::parse_from_str(&s).unwrap();
    assert_eq!((rs.year, rs.month, rs.day), (2023, 11, 15));
    assert_eq!((rs.hour, rs.min, rs.sec), (19, 10, 20))
}

#[test]
fn parse_date_string_rejects_short_input() {
    assert_eq!(
        ParsedDateString::parse_from_str("2023").unwrap_err(),
        "invalid string"
    );
    assert_eq!(
        ParsedDateString::parse_from_str("20231115x191020").unwrap_err(),
        "invalid string format"
    );
}
