use web_diary::date::{date_string, parse_date, timestamp_date, to_timestamp, Date};
use web_diary::error::ErrorKind;

#[test]
fn epoch_is_first_of_january_1970() {
    let d = timestamp_date(0).unwrap();
    assert_eq!(d, Date { year: 1970, month: 1, day: 1 });
}

#[test]
fn last_second_of_a_day_keeps_its_date() {
    let d = timestamp_date(86399).unwrap();
    assert_eq!(d, Date { year: 1970, month: 1, day: 1 });
    let next = timestamp_date(86400).unwrap();
    assert_eq!(next, Date { year: 1970, month: 1, day: 2 });
}

#[test]
fn leap_day_2024_exists() {
    let d = timestamp_date(1709164800).unwrap();
    assert_eq!(d, Date { year: 2024, month: 2, day: 29 });
}

#[test]
fn example_dates_convert_exactly() {
    assert_eq!(timestamp_date(1672920000).unwrap(), Date { year: 2023, month: 1, day: 5 });
    assert_eq!(timestamp_date(1686744000).unwrap(), Date { year: 2023, month: 6, day: 14 });
}

#[test]
fn last_supported_second_maps_and_next_does_not() {
    let d = timestamp_date(253402300799).unwrap();
    assert_eq!(d, Date { year: 9999, month: 12, day: 31 });
    let e = timestamp_date(253402300800).unwrap_err();
    assert_eq!(e.kind(), ErrorKind::InvalidTimestamp);
}

#[test]
fn to_timestamp_accepts_in_range_and_rejects_out_of_range() {
    assert_eq!(to_timestamp(1672920000).unwrap(), 1672920000);
    let e = to_timestamp(u64::MAX).unwrap_err();
    assert_eq!(e.kind(), ErrorKind::InvalidTimestamp);
}

#[test]
fn parse_date_accepts_exact_form() {
    let d = parse_date("2023-01-05").unwrap();
    assert_eq!(d, Date { year: 2023, month: 1, day: 5 });
}

#[test]
fn parse_date_rejects_deviations() {
    for bad in [
        "2023-1-05",
        "20230105",
        "2023/01/05",
        "2023-13-01",
        "2023-00-10",
        "2023-02-29",
        "1969-12-31",
        "2023-01-5",
        "2023-01-050",
        "abcd-ef-gh",
        "",
    ] {
        let e = parse_date(bad).unwrap_err();
        assert_eq!(e.kind(), ErrorKind::Format, "accepted {:?}", bad);
    }
}

#[test]
fn parse_date_accepts_leap_day_only_in_leap_years() {
    assert!(parse_date("2024-02-29").is_ok());
    assert!(parse_date("2023-02-29").is_err());
    assert!(parse_date("2000-02-29").is_ok());
    assert!(parse_date("2100-02-29").is_err());
}

#[test]
fn date_string_formats_with_padding() {
    let d = Date { year: 1970, month: 1, day: 1 };
    assert_eq!(date_string(&d), "1970-01-01");
    let d2 = Date { year: 2023, month: 6, day: 14 };
    assert_eq!(date_string(&d2), "2023-06-14");
}

#[test]
fn date_string_then_parse_round_trips() {
    let d = Date { year: 2024, month: 2, day: 29 };
    let s = date_string(&d);
    assert_eq!(parse_date(&s).unwrap(), d);
}
